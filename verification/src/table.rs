//! The alphabet table: an immutable bidirectional mapping between small
//! integers and fixed-width printable tokens.
//!
//! Two instances drive the codec: a primary table of 2048 two-character
//! tokens for 11-bit symbols, and a tail table of 64 one-character tokens for
//! a leftover group of at most six bits.

use vstd::prelude::*;
use crate::CodecError;

verus! {

/// Whether `tok` occurs among `tokens`.
pub open spec fn has_token(tokens: Seq<Seq<char>>, tok: Seq<char>) -> bool {
    exists|i: int| 0 <= i < tokens.len() && tokens[i] == tok
}

/// The index of `tok` among `tokens`; when the tokens are distinct and
/// `has_token` holds, this is the one index that carries `tok`.
pub open spec fn token_index(tokens: Seq<Seq<char>>, tok: Seq<char>) -> int {
    choose|i: int| 0 <= i < tokens.len() && tokens[i] == tok
}

/// The table invariant: exactly `size` tokens, each of character length
/// `width`, no two alike.
pub open spec fn valid_tokens(tokens: Seq<Seq<char>>, width: nat, size: nat) -> bool {
    &&& tokens.len() == size
    &&& forall|i: int| 0 <= i < tokens.len() ==> (#[trigger] tokens[i]).len() == width
    &&& forall|i: int, j: int| 0 <= i < j < tokens.len() ==> tokens[i] != tokens[j]
}

/// The supplied reverse mapping is exactly the inverse of the token list:
/// one pair per entry, each pair's index valid and carrying that index's
/// token, no index twice.
pub open spec fn matches_inverse(tokens: Seq<Seq<char>>, pairs: Seq<(String, u16)>) -> bool {
    &&& pairs.len() == tokens.len()
    &&& forall|i: int|
        0 <= i < pairs.len() ==> {
            &&& ((#[trigger] pairs[i]).1 as int) < tokens.len()
            &&& tokens[pairs[i].1 as int] == pairs[i].0@
        }
    &&& forall|i: int, j: int| 0 <= i < j < pairs.len() ==> pairs[i].1 != pairs[j].1
}

/// An immutable mapping between the integers `0..size` and `size` distinct
/// tokens of a fixed character width.
#[derive(Debug)]
pub struct AlphabetTable {
    tokens: Vec<String>,
    token_width: usize,
}

/// Character-by-character string equality.
fn str_eq(a: &str, b: &str) -> (r: bool)
    ensures
        r == (a@ == b@),
{
    let la = a.unicode_len();
    let lb = b.unicode_len();
    if la != lb {
        return false;
    }
    let mut i: usize = 0;
    while i < la
        invariant
            i <= la,
            la == a@.len(),
            la == b@.len(),
            forall|k: int| 0 <= k < i ==> a@[k] == b@[k],
        decreases la - i,
    {
        if a.get_char(i) != b.get_char(i) {
            return false;
        }
        i += 1;
    }
    proof {
        assert(a@ =~= b@);
    }
    true
}

impl AlphabetTable {
    /// The tokens, as sequences of characters, in index order.
    pub closed spec fn tokens_view(self) -> Seq<Seq<char>> {
        self.tokens.deep_view()
    }

    /// The number of entries.
    pub open spec fn size(self) -> nat {
        self.tokens_view().len()
    }

    /// The fixed character width of every token.
    pub closed spec fn width(self) -> nat {
        self.token_width as nat
    }

    /// Well-formedness: a positive width and a valid token list.
    pub open spec fn wf(self) -> bool {
        &&& self.width() >= 1
        &&& valid_tokens(self.tokens_view(), self.width(), self.size())
    }

    /// Builds a table from its token list, validating the table invariant:
    /// exactly `size` entries, each `token_width` characters wide, no
    /// duplicates.  Rejects anything else as `MalformedTable`.
    pub fn new(tokens: Vec<String>, token_width: usize, size: usize) -> (r: Result<
        AlphabetTable,
        CodecError,
    >)
        requires
            token_width >= 1,
        ensures
            match r {
                Ok(t) => {
                    &&& valid_tokens(tokens.deep_view(), token_width as nat, size as nat)
                    &&& t.wf()
                    &&& t.tokens_view() == tokens.deep_view()
                    &&& t.width() == token_width
                    &&& t.size() == size
                },
                Err(e) => {
                    &&& e == CodecError::MalformedTable
                    &&& !valid_tokens(tokens.deep_view(), token_width as nat, size as nat)
                },
            },
    {
        let n = tokens.len();
        if n != size {
            return Err(CodecError::MalformedTable);
        }
        let mut i: usize = 0;
        while i < n
            invariant
                i <= n,
                n == tokens.len(),
                forall|k: int|
                    0 <= k < i ==> (#[trigger] tokens.deep_view()[k]).len() == token_width as nat,
            decreases n - i,
        {
            if tokens[i].as_str().unicode_len() != token_width {
                proof {
                    assert(tokens.deep_view()[i as int].len() != token_width as nat);
                }
                return Err(CodecError::MalformedTable);
            }
            i += 1;
        }
        let mut i: usize = 0;
        while i < n
            invariant
                i <= n,
                n == tokens.len(),
                forall|a: int, b: int|
                    0 <= a < b < n && a < i ==> tokens.deep_view()[a] != tokens.deep_view()[b],
            decreases n - i,
        {
            let mut j: usize = i + 1;
            while j < n
                invariant
                    i < j <= n,
                    n == tokens.len(),
                    forall|b: int|
                        i < b < j ==> tokens.deep_view()[i as int] != tokens.deep_view()[b],
                decreases n - j,
            {
                if str_eq(tokens[i].as_str(), tokens[j].as_str()) {
                    proof {
                        assert(tokens.deep_view()[i as int] == tokens.deep_view()[j as int]);
                    }
                    return Err(CodecError::MalformedTable);
                }
                j += 1;
            }
            i += 1;
        }
        Ok(AlphabetTable { tokens, token_width })
    }

    /// Builds a table from the two halves of the configuration resource:
    /// the token list and the supplied reverse mapping.  Beyond the table
    /// invariant of `new`, this validates that the mapping is exactly the
    /// inverse of the list, and fails with `MalformedTable` otherwise.
    pub fn new_checked(
        tokens: Vec<String>,
        reverse: Vec<(String, u16)>,
        token_width: usize,
        size: usize,
    ) -> (r: Result<AlphabetTable, CodecError>)
        requires
            token_width >= 1,
        ensures
            match r {
                Ok(t) => {
                    &&& valid_tokens(tokens.deep_view(), token_width as nat, size as nat)
                    &&& matches_inverse(tokens.deep_view(), reverse@)
                    &&& t.wf()
                    &&& t.tokens_view() == tokens.deep_view()
                    &&& t.width() == token_width
                    &&& t.size() == size
                },
                Err(e) => {
                    &&& e == CodecError::MalformedTable
                    &&& !(valid_tokens(tokens.deep_view(), token_width as nat, size as nat)
                        && matches_inverse(tokens.deep_view(), reverse@))
                },
            },
    {
        if tokens.len() != size {
            return Err(CodecError::MalformedTable);
        }
        if reverse.len() != size {
            return Err(CodecError::MalformedTable);
        }
        let mut seen: Vec<bool> = Vec::new();
        let mut j: usize = 0;
        while j < size
            invariant
                j <= size,
                seen@.len() == j,
                forall|d: int| 0 <= d < j ==> !seen@[d],
            decreases size - j,
        {
            seen.push(false);
            j += 1;
        }
        let mut i: usize = 0;
        while i < size
            invariant
                i <= size,
                reverse@.len() == size,
                seen@.len() == size,
                tokens@.len() == size,
                forall|k: int|
                    0 <= k < i ==> ((#[trigger] reverse@[k]).1 as int) < size
                        && tokens.deep_view()[reverse@[k].1 as int] == reverse@[k].0@,
                forall|d: int|
                    0 <= d < size ==> (#[trigger] seen@[d] <==> exists|k: int|
                        0 <= k < i && (#[trigger] reverse@[k]).1 == d),
                forall|k1: int, k2: int| 0 <= k1 < k2 < i ==> reverse@[k1].1 != reverse@[k2].1,
            decreases size - i,
        {
            let idx = reverse[i].1;
            if idx as usize >= size {
                return Err(CodecError::MalformedTable);
            }
            if !str_eq(tokens[idx as usize].as_str(), reverse[i].0.as_str()) {
                proof {
                    assert(tokens.deep_view()[reverse@[i as int].1 as int] != reverse@[
                        i as int].0@);
                }
                return Err(CodecError::MalformedTable);
            }
            if seen[idx as usize] {
                proof {
                    let k = choose|k: int| 0 <= k < i && (#[trigger] reverse@[k]).1 == idx as int;
                    assert(reverse@[k].1 == reverse@[i as int].1);
                }
                return Err(CodecError::MalformedTable);
            }
            proof {
                assert(!seen@[idx as int]);
                assert forall|k1: int| 0 <= k1 < i implies reverse@[k1].1 != reverse@[i as int].1
                    by {
                    if reverse@[k1].1 == idx as int {
                        assert(seen@[idx as int]);
                    }
                }
            }
            seen[idx as usize] = true;
            proof {
                assert forall|d: int| 0 <= d < size implies (#[trigger] seen@[d] <==> exists|k: int|
                    0 <= k < i + 1 && (#[trigger] reverse@[k]).1 == d) by {
                    if d == idx as int {
                        assert(reverse@[i as int].1 == d);
                    } else {
                        if exists|k: int| 0 <= k < i + 1 && (#[trigger] reverse@[k]).1 == d {
                            let k = choose|k: int|
                                0 <= k < i + 1 && (#[trigger] reverse@[k]).1 == d;
                            assert(k < i);
                        }
                    }
                }
            }
            i += 1;
        }
        proof {
            assert(matches_inverse(tokens.deep_view(), reverse@));
        }
        Self::new(tokens, token_width, size)
    }

    /// The token stored at `index`; `IndexOutOfRange` exactly when `index`
    /// is not below the table's size.
    pub fn token_at(&self, index: usize) -> (r: Result<&String, CodecError>)
        ensures
            match r {
                Ok(tok) => {
                    &&& index < self.size()
                    &&& tok@ == self.tokens_view()[index as int]
                },
                Err(e) => {
                    &&& e == CodecError::IndexOutOfRange
                    &&& index >= self.size()
                },
            },
    {
        if index < self.tokens.len() {
            Ok(&self.tokens[index])
        } else {
            Err(CodecError::IndexOutOfRange)
        }
    }

    /// The index that carries `tok`; `UnknownSymbol` exactly when no entry
    /// does.
    pub fn index_of(&self, tok: &str) -> (r: Result<usize, CodecError>)
        requires
            self.wf(),
        ensures
            match r {
                Ok(i) => {
                    &&& has_token(self.tokens_view(), tok@)
                    &&& i < self.size()
                    &&& self.tokens_view()[i as int] == tok@
                    &&& i == token_index(self.tokens_view(), tok@)
                },
                Err(e) => {
                    &&& e == CodecError::UnknownSymbol
                    &&& !has_token(self.tokens_view(), tok@)
                },
            },
    {
        let n = self.tokens.len();
        let mut i: usize = 0;
        while i < n
            invariant
                i <= n,
                n == self.tokens.len(),
                self.wf(),
                forall|k: int| 0 <= k < i ==> self.tokens_view()[k] != tok@,
            decreases n - i,
        {
            if str_eq(self.tokens[i].as_str(), tok) {
                proof {
                    assert(self.tokens_view()[i as int] == tok@);
                    lemma_token_index_unique(self.tokens_view(), i as int);
                }
                return Ok(i);
            }
            i += 1;
        }
        Err(CodecError::UnknownSymbol)
    }
}

/// Among distinct tokens, the token stored at index `i` looks up to `i` and
/// to no other index.
pub proof fn lemma_token_index_unique(tokens: Seq<Seq<char>>, i: int)
    requires
        forall|a: int, b: int| 0 <= a < b < tokens.len() ==> tokens[a] != tokens[b],
        0 <= i < tokens.len(),
    ensures
        has_token(tokens, tokens[i]),
        token_index(tokens, tokens[i]) == i,
{
    assert(has_token(tokens, tokens[i]));
    let j = token_index(tokens, tokens[i]);
    assert(0 <= j < tokens.len() && tokens[j] == tokens[i]);
    if j < i {
        assert(tokens[j] != tokens[i]);
    } else if i < j {
        assert(tokens[i] != tokens[j]);
    }
}

/// The table-level round trip: for every index `i` of a well-formed table,
/// decoding the token that `i` encodes to gives `i` back.
pub proof fn lemma_table_round_trip(t: AlphabetTable, i: int)
    requires
        t.wf(),
        0 <= i < t.size(),
    ensures
        has_token(t.tokens_view(), t.tokens_view()[i]),
        token_index(t.tokens_view(), t.tokens_view()[i]) == i,
{
    lemma_token_index_unique(t.tokens_view(), i);
}

} // verus!
