//! The substitution table ("Vigenère matrix") and the lookups into it.
//!
//! Row 0 of the table is the alphabet itself and serves as the index
//! table; row `r` is the alphabet rotated left by `r` places, so that the
//! entry at row `r`, column `c` is the alphabet's character at
//! `(r + c) mod SIZE`.
use vstd::prelude::*;

use crate::dictionary::{
    dict_char, dict_index, dict_seq, in_dict, lemma_alphabet_closure, lemma_dict_distinct,
    lemma_index_of_char, DictWrap, SIZE,
};

verus! {

/// Why a cipher operation failed.
#[derive(Debug, Clone, Copy, PartialEq, Eq, Structural)]
pub enum ErrorCode {
    /// A character of the message or of the key is not in the alphabet.
    InvalidChar(char),
    /// An index lies outside the table.
    InvalidIndex(usize),
}

/// The entry of the table at row `r`, column `c`.
pub open spec fn table_char(r: int, c: int) -> char {
    dict_char((r + c) % (SIZE as int))
}

/// Row `r` of the table.
pub open spec fn table_row(r: int) -> Seq<char> {
    Seq::new(SIZE as nat, |c: int| table_char(r, c))
}

/// What encoding the message character `m` under the key character `k`
/// gives: the entry at the key's row and the message's column, or the first
/// of the two characters (message first) that the alphabet lacks.
pub open spec fn encode_char(m: char, k: char) -> Result<char, ErrorCode> {
    if !in_dict(m) {
        Err(ErrorCode::InvalidChar(m))
    } else if !in_dict(k) {
        Err(ErrorCode::InvalidChar(k))
    } else {
        Ok(table_char(dict_index(k), dict_index(m)))
    }
}

/// The column of row `r` that holds the alphabet's character at index `i`.
pub open spec fn column_of(r: int, i: int) -> int {
    (i - r) % (SIZE as int)
}

/// What decoding the cipher character `e` under the key character `k`
/// gives: the alphabet's character at the column of the key's row that
/// holds `e`, or the first of the two characters (key first) that the
/// alphabet lacks.
pub open spec fn decode_char(e: char, k: char) -> Result<char, ErrorCode> {
    if !in_dict(k) {
        Err(ErrorCode::InvalidChar(k))
    } else if !in_dict(e) {
        Err(ErrorCode::InvalidChar(e))
    } else {
        Ok(dict_char(column_of(dict_index(k), dict_index(e))))
    }
}

/// The substitution table, one array per row.
#[derive(Clone, Copy)]
pub struct VigMatrixWrap(pub [[char; SIZE]; SIZE]);

impl VigMatrixWrap {
    /// Every row holds what the table's definition puts there.
    pub open spec fn wf(&self) -> bool {
        forall|r: int| 0 <= r < SIZE ==> #[trigger] self.0[r]@ == table_row(r)
    }

    /// Builds the table from the alphabet.
    pub fn new() -> (r: VigMatrixWrap)
        ensures
            r.wf(),
    {
        let dict = DictWrap::new();
        let mut mat: [[char; SIZE]; SIZE] = [[' '; SIZE]; SIZE];
        let mut r: usize = 0;
        while r < SIZE
            invariant
                r <= SIZE,
                dict@ == dict_seq(),
                forall|i: int| 0 <= i < r ==> #[trigger] mat[i]@ == table_row(i),
            decreases SIZE - r,
        {
            let mut row: [char; SIZE] = [' '; SIZE];
            let mut c: usize = 0;
            while c < SIZE
                invariant
                    r < SIZE,
                    c <= SIZE,
                    dict@ == dict_seq(),
                    forall|j: int| 0 <= j < c ==> #[trigger] row[j] == table_char(r as int, j),
                decreases SIZE - c,
            {
                row[c] = dict.0[(r + c) % SIZE];
                c = c + 1;
            }
            assert(row@ =~= table_row(r as int));
            mat[r] = row;
            r = r + 1;
        }
        VigMatrixWrap(mat)
    }
}

/// The index of `ch` in the alphabet, found in the table's first row.
pub fn idx_finder(ch: char, m: &VigMatrixWrap) -> (r: Result<usize, ErrorCode>)
    requires
        m.wf(),
    ensures
        r == (if in_dict(ch) {
            Ok::<usize, ErrorCode>(dict_index(ch) as usize)
        } else {
            Err::<usize, ErrorCode>(ErrorCode::InvalidChar(ch))
        }),
{
    assert(m.0[0]@ == table_row(0));
    let mut idx: usize = 0;
    while idx < SIZE
        invariant
            idx <= SIZE,
            m.wf(),
            forall|j: int| 0 <= j < idx ==> dict_char(j) != ch,
        decreases SIZE - idx,
    {
        assert(m.0[0]@[idx as int] == dict_char(idx as int));
        if m.0[0][idx] == ch {
            proof {
                lemma_index_of_char(idx as int);
            }
            return Ok(idx);
        }
        idx = idx + 1;
    }
    proof {
        if in_dict(ch) {
            lemma_alphabet_closure(ch);
        }
    }
    Err(ErrorCode::InvalidChar(ch))
}

/// The alphabet's character at index `idx`, read from the table's first row.
pub fn char_finder(idx: usize, m: &VigMatrixWrap) -> (r: Result<char, ErrorCode>)
    requires
        m.wf(),
    ensures
        r == (if idx < SIZE {
            Ok::<char, ErrorCode>(dict_char(idx as int))
        } else {
            Err::<char, ErrorCode>(ErrorCode::InvalidIndex(idx))
        }),
{
    if idx < SIZE {
        assert(m.0[0]@ == table_row(0));
        assert(m.0[0]@[idx as int] == dict_char(idx as int));
        Ok(m.0[0][idx])
    } else {
        Err(ErrorCode::InvalidIndex(idx))
    }
}

/// The entry of the table at the row of the key character `ch_k` and the
/// column of the message character `ch_m`.
pub fn vig_matcher(m: &VigMatrixWrap, ch_m: char, ch_k: char) -> (r: Result<char, ErrorCode>)
    requires
        m.wf(),
    ensures
        r == encode_char(ch_m, ch_k),
{
    let idx_c = match idx_finder(ch_m, m) {
        Ok(i) => i,
        Err(e) => {
            return Err(e);
        },
    };
    let idx_r = match idx_finder(ch_k, m) {
        Ok(i) => i,
        Err(e) => {
            return Err(e);
        },
    };
    assert(m.0[idx_r as int]@ == table_row(idx_r as int));
    Ok(m.0[idx_r][idx_c])
}

/// The column of row `row` that holds `ch`, or `None` where the alphabet
/// lacks `ch`.
pub(crate) fn column_finder(m: &VigMatrixWrap, row: usize, ch: char) -> (r: Option<usize>)
    requires
        m.wf(),
        row < SIZE,
    ensures
        r == (if in_dict(ch) {
            Some(column_of(row as int, dict_index(ch)) as usize)
        } else {
            None::<usize>
        }),
{
    assert(m.0[row as int]@ == table_row(row as int));
    let mut c: usize = 0;
    while c < SIZE
        invariant
            c <= SIZE,
            row < SIZE,
            m.0[row as int]@ == table_row(row as int),
            forall|j: int| 0 <= j < c ==> table_char(row as int, j) != ch,
        decreases SIZE - c,
    {
        assert(m.0[row as int]@[c as int] == table_char(row as int, c as int));
        if m.0[row][c] == ch {
            proof {
                lemma_index_of_char((row + c) % (SIZE as int));
            }
            return Some(c);
        }
        c = c + 1;
    }
    proof {
        if in_dict(ch) {
            lemma_alphabet_closure(ch);
            let j = column_of(row as int, dict_index(ch));
            assert(table_char(row as int, j) == ch);
        }
    }
    None
}

/// Every row of a table is a permutation of the alphabet: it holds each
/// character of the alphabet exactly once, and nothing else.
pub proof fn lemma_row_permutation(m: VigMatrixWrap, r: int)
    requires
        m.wf(),
        0 <= r < SIZE,
    ensures
        m.0[r]@.to_multiset() == dict_seq().to_multiset(),
        m.0[r]@.no_duplicates(),
        forall|ch: char| #[trigger]
            m.0[r]@.to_multiset().count(ch) == (if in_dict(ch) {
                1nat
            } else {
                0nat
            }),
{
    let row = m.0[r]@;
    let d = dict_seq();
    let n = SIZE as int;
    assert(row == table_row(r));
    assert(row =~= d.subrange(r, n) + d.subrange(0, r)) by {
        assert forall|c: int| 0 <= c < n implies #[trigger] row[c] == (d.subrange(r, n) + d.subrange(
            0,
            r,
        ))[c] by {
            if r + c < n {
                assert((r + c) % n == r + c);
            } else {
                assert((r + c) % n == r + c - n);
            }
        }
    }
    assert(d =~= d.subrange(0, r) + d.subrange(r, n));
    vstd::seq_lib::lemma_multiset_commutative(d.subrange(r, n), d.subrange(0, r));
    vstd::seq_lib::lemma_multiset_commutative(d.subrange(0, r), d.subrange(r, n));
    assert(row.to_multiset() =~= d.to_multiset());
    assert forall|i: int, j: int| 0 <= i < row.len() && 0 <= j < row.len() && i != j implies row[i]
        != row[j] by {
        lemma_index_of_char((r + i) % n);
        lemma_index_of_char((r + j) % n);
    }
    lemma_dict_distinct();
    d.lemma_multiset_has_no_duplicates();
    assert forall|ch: char| #[trigger]
        row.to_multiset().count(ch) == (if in_dict(ch) {
            1nat
        } else {
            0nat
        }) by {
        vstd::seq_lib::to_multiset_contains(d, ch);
        if in_dict(ch) {
            lemma_alphabet_closure(ch);
            assert(d[dict_index(ch)] == ch);
        } else if d.contains(ch) {
            let i = choose|i: int| 0 <= i < d.len() && d[i] == ch;
            lemma_index_of_char(i);
        }
    }
}

} // verus!
