//! The cipher's alphabet: an ordered sequence of distinct characters that
//! gives each of them an index.
//!
//! The alphabet holds the printable ASCII characters from `!` to `~`, then
//! the space, then the printable Latin-1 characters from `¡` to `ÿ`, and
//! last the line feed and the carriage return, so that multi-line text can
//! be enciphered too.
use vstd::prelude::*;

use crate::text::push_char;

verus! {

/// The number of characters in the alphabet.
pub const SIZE: usize = 192;

/// Index of the space in the alphabet; the characters `!` to `~` come before it.
pub const SPACE_INDEX: usize = 94;

/// Index of the line feed; the characters `¡` to `ÿ` come before it.
pub const LINE_FEED_INDEX: usize = 190;

/// The Unicode scalar value of a character.
pub open spec fn code(c: char) -> int {
    c as u32 as int
}

/// The character at index `i` of the alphabet, for `0 <= i < SIZE`.
pub open spec fn dict_char(i: int) -> char {
    if i < SPACE_INDEX {
        (0x21 + i) as u8 as char
    } else if i == SPACE_INDEX {
        ' '
    } else if i < LINE_FEED_INDEX {
        (0xA1 + (i - 95)) as u8 as char
    } else if i == LINE_FEED_INDEX {
        '\n'
    } else {
        '\r'
    }
}

/// The index of `c` in the alphabet, or -1 where the alphabet lacks it.
pub open spec fn dict_index(c: char) -> int {
    let v = code(c);
    if 0x21 <= v <= 0x7E {
        v - 0x21
    } else if v == 0x20 {
        SPACE_INDEX as int
    } else if 0xA1 <= v <= 0xFF {
        v - 0xA1 + 95
    } else if v == 0x0A {
        LINE_FEED_INDEX as int
    } else if v == 0x0D {
        LINE_FEED_INDEX + 1
    } else {
        -1
    }
}

/// Whether the alphabet holds `c`.
pub open spec fn in_dict(c: char) -> bool {
    dict_index(c) >= 0
}

/// The whole alphabet, in order.
pub open spec fn dict_seq() -> Seq<char> {
    Seq::new(SIZE as nat, |i: int| dict_char(i))
}

/// Every index of the alphabet names a character that maps back to it.
pub proof fn lemma_index_of_char(i: int)
    requires
        0 <= i < SIZE,
    ensures
        in_dict(dict_char(i)),
        dict_index(dict_char(i)) == i,
{
}

/// Looking a character of the alphabet up by its index gives that character
/// back: `dict_char(dict_index(c)) == c` for every `c` of the alphabet.
pub proof fn lemma_alphabet_closure(c: char)
    requires
        in_dict(c),
    ensures
        0 <= dict_index(c) < SIZE,
        dict_char(dict_index(c)) == c,
{
}

/// The alphabet holds no character twice.
pub proof fn lemma_dict_distinct()
    ensures
        dict_seq().no_duplicates(),
{
    assert forall|i: int, j: int| 0 <= i < dict_seq().len() && 0 <= j < dict_seq().len() && i != j
        implies dict_seq()[i] != dict_seq()[j] by {
        lemma_index_of_char(i);
        lemma_index_of_char(j);
    }
}

/// The alphabet, held as an array in index order.
#[derive(Clone, Copy)]
pub struct DictWrap(pub [char; SIZE]);

impl View for DictWrap {
    type V = Seq<char>;

    open spec fn view(&self) -> Seq<char> {
        self.0@
    }
}

impl DictWrap {
    /// Builds the alphabet.
    pub fn new() -> (r: DictWrap)
        ensures
            r@ == dict_seq(),
    {
        let mut d: [char; SIZE] = [' '; SIZE];
        let mut i: usize = 0;
        let mut b: u8 = 0x21;
        while b <= 0x7E
            invariant
                0x21 <= b <= 0x7F,
                i == b - 0x21,
                forall|j: int| 0 <= j < i ==> d[j] == dict_char(j),
            decreases 0x7F - b,
        {
            d[i] = b as char;
            i = i + 1;
            b = b + 1;
        }
        d[i] = ' ';
        i = i + 1;
        let mut b: u16 = 0xA1;
        while b <= 0xFF
            invariant
                0xA1 <= b <= 0x100,
                i == b - 0xA1 + 95,
                forall|j: int| 0 <= j < i ==> d[j] == dict_char(j),
            decreases 0x100 - b,
        {
            d[i] = b as u8 as char;
            i = i + 1;
            b = b + 1;
        }
        d[i] = '\n';
        d[i + 1] = '\r';
        let r = DictWrap(d);
        assert(r@ =~= dict_seq());
        r
    }

    /// The characters of the alphabet, in order, as one string.
    pub fn get_string(&self) -> (r: String)
        ensures
            r@ == self@,
    {
        let mut s = String::new();
        let mut i: usize = 0;
        while i < SIZE
            invariant
                i <= SIZE,
                s@ == self@.take(i as int),
            decreases SIZE - i,
        {
            push_char(&mut s, self.0[i]);
            i = i + 1;
            assert(s@ =~= self@.take(i as int));
        }
        assert(self@.take(SIZE as int) =~= self@);
        s
    }
}

} // verus!
