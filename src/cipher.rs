//! The cipher engine: key stretching, encoding, decoding, and rendering
//! decoded text for display in a web page.
use vstd::prelude::*;

use crate::dictionary::{
    dict_index, in_dict, lemma_alphabet_closure, lemma_index_of_char, SIZE,
};
use crate::matrix::{
    char_finder, column_finder, column_of, decode_char, encode_char, idx_finder, table_char,
    vig_matcher, ErrorCode, VigMatrixWrap,
};
use crate::text::{chars_of, push_char, push_text};

verus! {

/// The key `key` cycled, or cut, to exactly `n` characters.
pub open spec fn stretch_key(key: Seq<char>, n: nat) -> Seq<char> {
    Seq::new(n, |i: int| key[i % (key.len() as int)])
}

/// Encodes `msg` position by position under the key characters `keys`
/// (at least as many as `msg` has); fails with the error of the first
/// position that fails.
pub open spec fn encode_seq(msg: Seq<char>, keys: Seq<char>) -> Result<Seq<char>, ErrorCode>
    decreases msg.len(),
{
    if msg.len() == 0 {
        Ok(Seq::empty())
    } else {
        match encode_seq(msg.drop_last(), keys) {
            Err(e) => Err(e),
            Ok(p) => match encode_char(msg.last(), keys[msg.len() - 1]) {
                Err(e) => Err(e),
                Ok(c) => Ok(p.push(c)),
            },
        }
    }
}

/// Decodes `enc` position by position under the key characters `keys`
/// (at least as many as `enc` has); fails with the error of the first
/// position that fails.
pub open spec fn decode_seq(enc: Seq<char>, keys: Seq<char>) -> Result<Seq<char>, ErrorCode>
    decreases enc.len(),
{
    if enc.len() == 0 {
        Ok(Seq::empty())
    } else {
        match decode_seq(enc.drop_last(), keys) {
            Err(e) => Err(e),
            Ok(p) => match decode_char(enc.last(), keys[enc.len() - 1]) {
                Err(e) => Err(e),
                Ok(c) => Ok(p.push(c)),
            },
        }
    }
}

/// What encoding `msg` under `key` gives.
pub open spec fn encode_spec(msg: Seq<char>, key: Seq<char>) -> Result<Seq<char>, ErrorCode> {
    encode_seq(msg, stretch_key(key, msg.len()))
}

/// What decoding `enc` under `key` gives.
pub open spec fn decode_spec(enc: Seq<char>, key: Seq<char>) -> Result<Seq<char>, ErrorCode> {
    decode_seq(enc, stretch_key(key, enc.len()))
}

/// The characters of a string result.
pub open spec fn text_result(r: Result<String, ErrorCode>) -> Result<Seq<char>, ErrorCode> {
    match r {
        Ok(s) => Ok(s@),
        Err(e) => Err(e),
    }
}

/// Once a prefix of `msg` fails to encode, `msg` fails with the same error.
proof fn lemma_encode_err_extends(msg: Seq<char>, keys: Seq<char>, i: int)
    requires
        0 <= i <= msg.len(),
        encode_seq(msg.take(i), keys) is Err,
    ensures
        encode_seq(msg, keys) == encode_seq(msg.take(i), keys),
    decreases msg.len(),
{
    if i == msg.len() {
        assert(msg.take(i) =~= msg);
    } else {
        assert(msg.drop_last().take(i) =~= msg.take(i));
        lemma_encode_err_extends(msg.drop_last(), keys, i);
    }
}

/// Once a prefix of `enc` fails to decode, `enc` fails with the same error.
proof fn lemma_decode_err_extends(enc: Seq<char>, keys: Seq<char>, i: int)
    requires
        0 <= i <= enc.len(),
        decode_seq(enc.take(i), keys) is Err,
    ensures
        decode_seq(enc, keys) == decode_seq(enc.take(i), keys),
    decreases enc.len(),
{
    if i == enc.len() {
        assert(enc.take(i) =~= enc);
    } else {
        assert(enc.drop_last().take(i) =~= enc.take(i));
        lemma_decode_err_extends(enc.drop_last(), keys, i);
    }
}

/// Stretches `key` to `msg_size` characters by cycling through it.
pub fn complete_key(key: &str, msg_size: usize) -> (r: String)
    requires
        key@.len() > 0 || msg_size == 0,
    ensures
        r@ == stretch_key(key@, msg_size as nat),
{
    let key_chars = chars_of(key);
    let mut new_key = String::new();
    let mut i: usize = 0;
    while i < msg_size
        invariant
            i <= msg_size,
            key_chars@ == key@,
            key@.len() > 0 || msg_size == 0,
            new_key@ == stretch_key(key@, i as nat),
        decreases msg_size - i,
    {
        push_char(&mut new_key, key_chars[i % key_chars.len()]);
        i = i + 1;
        assert(new_key@ =~= stretch_key(key@, i as nat));
    }
    new_key
}

/// The key characters for a message of `msg_size` characters: the key
/// itself where the lengths agree, else the key stretched.
fn key_for(key: &str, msg_size: usize) -> (r: Vec<char>)
    requires
        key@.len() > 0 || msg_size == 0,
    ensures
        r@ == stretch_key(key@, msg_size as nat),
{
    let key_chars = chars_of(key);
    if key_chars.len() != msg_size {
        let key_e = complete_key(key, msg_size);
        chars_of(key_e.as_str())
    } else {
        assert(key_chars@ =~= stretch_key(key@, msg_size as nat)) by {
            assert forall|i: int| 0 <= i < msg_size implies #[trigger] (i % (key@.len() as int)) == i by {
                vstd::arithmetic::div_mod::lemma_small_mod(i as nat, key@.len());
            }
        }
        key_chars
    }
}

/// Encodes `msg` under `key` with the table `vig_mat`.
///
/// The key is stretched to the message's length by cycling through it;
/// each message character then becomes the table's entry at the row of its
/// key character and at its own column. Where the alphabet lacks a
/// character, the result is `InvalidChar` naming the first such character
/// (at one position, the message's before the key's), and no text. A
/// non-empty message needs a non-empty key.
pub fn encode(msg: &str, key: &str, vig_mat: VigMatrixWrap) -> (r: Result<String, ErrorCode>)
    requires
        vig_mat.wf(),
        key@.len() > 0 || msg@.len() == 0,
    ensures
        text_result(r) == encode_spec(msg@, key@),
{
    let msg_chars = chars_of(msg);
    let msg_size = msg_chars.len();
    let key_chars = key_for(key, msg_size);
    let ghost keys = stretch_key(key@, msg@.len());
    let mut encrypted_msg = String::new();
    let mut i: usize = 0;
    while i < msg_size
        invariant
            i <= msg_size,
            vig_mat.wf(),
            msg_size == msg@.len(),
            msg_chars@ == msg@,
            keys == stretch_key(key@, msg_size as nat),
            key_chars@ == keys,
            encode_seq(msg@.take(i as int), keys) == Ok::<Seq<char>, ErrorCode>(encrypted_msg@),
        decreases msg_size - i,
    {
        assert(msg@.take(i + 1).drop_last() =~= msg@.take(i as int));
        match vig_matcher(&vig_mat, msg_chars[i], key_chars[i]) {
            Ok(c) => {
                push_char(&mut encrypted_msg, c);
            },
            Err(e) => {
                proof {
                    lemma_encode_err_extends(msg@, keys, i + 1);
                }
                return Err(e);
            },
        }
        i = i + 1;
    }
    assert(msg@.take(msg_size as int) =~= msg@);
    Ok(encrypted_msg)
}

/// Decodes `enc_msg` under `key` with the table `vig_mat`, undoing `encode`.
///
/// The key is stretched as for `encode`; each character then becomes the
/// alphabet's character at the column of its key character's row that
/// holds it. Where the alphabet lacks a character, the result is
/// `InvalidChar` naming the first such character (at one position, the
/// key's before the text's), and no text. A non-empty text needs a
/// non-empty key.
pub fn decode(enc_msg: &str, key: &str, vig_mat: VigMatrixWrap) -> (r: Result<String, ErrorCode>)
    requires
        vig_mat.wf(),
        key@.len() > 0 || enc_msg@.len() == 0,
    ensures
        text_result(r) == decode_spec(enc_msg@, key@),
{
    let msg_chars = chars_of(enc_msg);
    let msg_size = msg_chars.len();
    let key_chars = key_for(key, msg_size);
    let ghost keys = stretch_key(key@, enc_msg@.len());
    let mut decrypted_msg = String::new();
    let mut letter: usize = 0;
    while letter < msg_size
        invariant
            letter <= msg_size,
            vig_mat.wf(),
            msg_size == enc_msg@.len(),
            msg_chars@ == enc_msg@,
            keys == stretch_key(key@, msg_size as nat),
            key_chars@ == keys,
            decode_seq(enc_msg@.take(letter as int), keys) == Ok::<Seq<char>, ErrorCode>(
                decrypted_msg@,
            ),
        decreases msg_size - letter,
    {
        assert(enc_msg@.take(letter + 1).drop_last() =~= enc_msg@.take(letter as int));
        let key_idx = match idx_finder(key_chars[letter], &vig_mat) {
            Ok(k) => k,
            Err(e) => {
                proof {
                    lemma_decode_err_extends(enc_msg@, keys, letter + 1);
                }
                return Err(e);
            },
        };
        let msg_idx = match column_finder(&vig_mat, key_idx, msg_chars[letter]) {
            Some(c) => c,
            None => {
                proof {
                    lemma_decode_err_extends(enc_msg@, keys, letter + 1);
                }
                return Err(ErrorCode::InvalidChar(msg_chars[letter]));
            },
        };
        match char_finder(msg_idx, &vig_mat) {
            Ok(c) => {
                push_char(&mut decrypted_msg, c);
            },
            Err(e) => {
                return Err(e);
            },
        }
        letter = letter + 1;
    }
    assert(enc_msg@.take(msg_size as int) =~= enc_msg@);
    Ok(decrypted_msg)
}

/// What a space becomes on display.
pub open spec fn space_marker() -> Seq<char> {
    seq!['&', 'n', 'b', 's', 'p', ';']
}

/// What a line feed or a carriage return becomes on display.
pub open spec fn line_break_marker() -> Seq<char> {
    seq!['<', 'b', 'r', '>']
}

/// What one character becomes on display.
pub open spec fn display_char(c: char) -> Seq<char> {
    if c == ' ' {
        space_marker()
    } else if c == '\n' || c == '\r' {
        line_break_marker()
    } else {
        seq![c]
    }
}

/// `s` with each character replaced by what it becomes on display.
pub open spec fn render_seq(s: Seq<char>) -> Seq<char>
    decreases s.len(),
{
    if s.len() == 0 {
        Seq::empty()
    } else {
        render_seq(s.drop_last()) + display_char(s.last())
    }
}

/// Makes decoded text fit for an HTML page: each space becomes `&nbsp;`,
/// so that runs of spaces survive, and each line feed or carriage return
/// becomes `<br>`; every other character stays as it is.
pub fn render_for_display(decoded: &str) -> (r: String)
    ensures
        r@ == render_seq(decoded@),
{
    let chars = chars_of(decoded);
    let mut decoded_web = String::new();
    let mut i: usize = 0;
    while i < chars.len()
        invariant
            i <= chars.len(),
            chars@ == decoded@,
            decoded_web@ == render_seq(decoded@.take(i as int)),
        decreases chars.len() - i,
    {
        let ch = chars[i];
        assert(decoded@.take(i + 1).drop_last() =~= decoded@.take(i as int));
        assert(decoded@.take(i + 1).last() == ch);
        if ch == ' ' {
            proof {
                reveal_strlit("&nbsp;");
            }
            push_text(&mut decoded_web, "&nbsp;");
            assert("&nbsp;"@ =~= space_marker());
        } else if ch == '\n' || ch == '\r' {
            proof {
                reveal_strlit("<br>");
            }
            push_text(&mut decoded_web, "<br>");
            assert("<br>"@ =~= line_break_marker());
        } else {
            push_char(&mut decoded_web, ch);
            assert(seq![ch] =~= display_char(ch));
        }
        i = i + 1;
    }
    assert(decoded@.take(chars.len() as int) =~= decoded@);
    decoded_web
}

/// Decodes `enc_msg` under `key` with the table `vig_mat`, and renders the
/// result for display.
pub fn decode_web(enc_msg: &str, key: &str, vig_mat: VigMatrixWrap) -> (r: Result<
    String,
    ErrorCode,
>)
    requires
        vig_mat.wf(),
        key@.len() > 0 || enc_msg@.len() == 0,
    ensures
        text_result(r) == (match decode_spec(enc_msg@, key@) {
            Ok(s) => Ok(render_seq(s)),
            Err(e) => Err(e),
        }),
{
    match decode(enc_msg, key, vig_mat) {
        Ok(decoded) => Ok(render_for_display(decoded.as_str())),
        Err(e) => Err(e),
    }
}

/// Whether every character of `s` is in the alphabet.
pub open spec fn all_in_dict(s: Seq<char>) -> bool {
    forall|i: int| 0 <= i < s.len() ==> #[trigger] in_dict(s[i])
}

/// A non-empty key of alphabet characters, stretched, still holds only
/// alphabet characters.
proof fn lemma_stretch_in_dict(key: Seq<char>, n: nat)
    requires
        all_in_dict(key),
        key.len() > 0 || n == 0,
    ensures
        all_in_dict(stretch_key(key, n)),
        stretch_key(key, n).len() == n,
{
    assert forall|i: int| 0 <= i < n implies #[trigger] in_dict(stretch_key(key, n)[i]) by {
        let j = i % (key.len() as int);
        assert(0 <= j < key.len());
        assert(in_dict(key[j]));
    }
}

/// Decoding the character that encoding `m` under `k` gives, under `k`
/// again, gives `m` back.
proof fn lemma_decode_char_inverts(m: char, k: char)
    requires
        in_dict(m),
        in_dict(k),
    ensures
        encode_char(m, k) == Ok::<char, ErrorCode>(table_char(dict_index(k), dict_index(m))),
        decode_char(table_char(dict_index(k), dict_index(m)), k) == Ok::<char, ErrorCode>(m),
{
    let n = SIZE as int;
    lemma_alphabet_closure(m);
    lemma_alphabet_closure(k);
    let im = dict_index(m);
    let ik = dict_index(k);
    lemma_index_of_char((ik + im) % n);
    if ik + im < n {
        assert((ik + im) % n == ik + im);
        assert(im % n == im);
    } else {
        assert((ik + im) % n == ik + im - n);
        assert((im - n) % n == im);
    }
    assert(column_of(ik, dict_index(table_char(ik, im))) == im);
}

/// Under key characters of the alphabet, a message of alphabet characters
/// encodes to a text of its length that decodes back to it.
proof fn lemma_round_trip_seq(msg: Seq<char>, keys: Seq<char>)
    requires
        msg.len() <= keys.len(),
        all_in_dict(msg),
        all_in_dict(keys),
    ensures
        encode_seq(msg, keys) is Ok,
        encode_seq(msg, keys)->Ok_0.len() == msg.len(),
        decode_seq(encode_seq(msg, keys)->Ok_0, keys) == Ok::<Seq<char>, ErrorCode>(msg),
    decreases msg.len(),
{
    if msg.len() > 0 {
        let front = msg.drop_last();
        assert(all_in_dict(front)) by {
            assert forall|i: int| 0 <= i < front.len() implies #[trigger] in_dict(front[i]) by {
                assert(in_dict(msg[i]));
            }
        }
        lemma_round_trip_seq(front, keys);
        let p = encode_seq(front, keys)->Ok_0;
        let m = msg.last();
        let k = keys[msg.len() - 1];
        assert(in_dict(m) && in_dict(k)) by {
            assert(in_dict(msg[msg.len() - 1]));
        }
        let c = table_char(dict_index(k), dict_index(m));
        lemma_decode_char_inverts(m, k);
        let e = p.push(c);
        assert(encode_seq(msg, keys) == Ok::<Seq<char>, ErrorCode>(e));
        assert(e.drop_last() =~= p);
        assert(e.last() == c);
        assert(msg =~= front.push(m));
        assert(decode_seq(e, keys) == Ok::<Seq<char>, ErrorCode>(front.push(m)));
    } else {
        assert(msg =~= Seq::<char>::empty());
    }
}

/// Decoding what encoding gives, under the same key, gives the message
/// back, for every message and key made of alphabet characters (the key
/// non-empty where the message is not).
pub proof fn lemma_round_trip(msg: Seq<char>, key: Seq<char>)
    requires
        all_in_dict(msg),
        all_in_dict(key),
        key.len() > 0 || msg.len() == 0,
    ensures
        encode_spec(msg, key) is Ok,
        decode_spec(encode_spec(msg, key)->Ok_0, key) == Ok::<Seq<char>, ErrorCode>(msg),
{
    lemma_stretch_in_dict(key, msg.len());
    lemma_round_trip_seq(msg, stretch_key(key, msg.len()));
}

/// Encoding a message under a key `k` and under `k + k` gives the same
/// result, for every message no longer than `k`.
pub proof fn lemma_key_length_invariance(msg: Seq<char>, key: Seq<char>)
    requires
        msg.len() <= key.len(),
    ensures
        encode_spec(msg, key + key) == encode_spec(msg, key),
{
    let n = msg.len();
    assert(stretch_key(key + key, n) =~= stretch_key(key, n)) by {
        assert forall|i: int| 0 <= i < n implies #[trigger] stretch_key(key + key, n)[i]
            == stretch_key(key, n)[i] by {
            vstd::arithmetic::div_mod::lemma_small_mod(i as nat, key.len());
            vstd::arithmetic::div_mod::lemma_small_mod(i as nat, (key + key).len());
        }
    }
}

/// Encoding a message that holds exactly one character outside the
/// alphabet, under a non-empty key of alphabet characters, fails with
/// `InvalidChar` naming that character.
pub proof fn lemma_error_surfacing(msg: Seq<char>, key: Seq<char>, i: int)
    requires
        0 <= i < msg.len(),
        !in_dict(msg[i]),
        forall|j: int| 0 <= j < msg.len() && j != i ==> #[trigger] in_dict(msg[j]),
        all_in_dict(key),
        key.len() > 0,
    ensures
        encode_spec(msg, key) == Err::<Seq<char>, ErrorCode>(ErrorCode::InvalidChar(msg[i])),
{
    let keys = stretch_key(key, msg.len());
    lemma_stretch_in_dict(key, msg.len());
    let front = msg.take(i);
    assert(all_in_dict(front)) by {
        assert forall|j: int| 0 <= j < front.len() implies #[trigger] in_dict(front[j]) by {
            assert(in_dict(msg[j]));
        }
    }
    lemma_round_trip_seq(front, keys);
    assert(msg.take(i + 1).drop_last() =~= front);
    assert(msg.take(i + 1).last() == msg[i]);
    lemma_encode_err_extends(msg, keys, i + 1);
}

/// The empty message encodes and decodes, under any key, to the empty text.
pub proof fn lemma_empty_input(key: Seq<char>)
    ensures
        encode_spec(Seq::empty(), key) == Ok::<Seq<char>, ErrorCode>(Seq::empty()),
        decode_spec(Seq::empty(), key) == Ok::<Seq<char>, ErrorCode>(Seq::empty()),
{
}

/// Rendering a concatenation renders each part in place.
pub proof fn lemma_render_concat(a: Seq<char>, b: Seq<char>)
    ensures
        render_seq(a + b) == render_seq(a) + render_seq(b),
    decreases b.len(),
{
    if b.len() == 0 {
        assert(a + b =~= a);
        assert(render_seq(a) + render_seq(b) =~= render_seq(a));
    } else {
        assert((a + b).drop_last() =~= a + b.drop_last());
        lemma_render_concat(a, b.drop_last());
        assert(render_seq(a + b) =~= render_seq(a) + render_seq(b));
    }
}

/// Rendering leaves unchanged every text without spaces, line feeds and
/// carriage returns.
pub proof fn lemma_render_keeps_plain(s: Seq<char>)
    requires
        forall|i: int| 0 <= i < s.len() ==> #[trigger] s[i] != ' ' && s[i] != '\n' && s[i] != '\r',
    ensures
        render_seq(s) == s,
    decreases s.len(),
{
    if s.len() > 0 {
        lemma_render_keeps_plain(s.drop_last());
        assert(s =~= s.drop_last().push(s.last()));
        assert(render_seq(s) =~= s);
    }
}

/// The two markers differ, and rendering does not change them again.
pub proof fn lemma_markers_stable()
    ensures
        space_marker() != line_break_marker(),
        render_seq(space_marker()) == space_marker(),
        render_seq(line_break_marker()) == line_break_marker(),
{
    assert(space_marker()[0] != line_break_marker()[0]);
    lemma_render_keeps_plain(space_marker());
    lemma_render_keeps_plain(line_break_marker());
}

} // verus!
