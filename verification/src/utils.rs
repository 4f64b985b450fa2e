//! Text and byte helpers: ASCII filtering, comment-line removal, in-place
//! byte replacement and hex decoding.
use vstd::prelude::*;

use crate::error::PatchError;
use crate::text::{
    chars_of, join_lines, lemma_lines_have_no_newline, lemma_lines_of_join, lines, lines_of,
    plain_line, push_all, replace_all, starts_with, string_of, views,
};

verus! {

// ---------------------------------------------------------------------------
// ASCII
// ---------------------------------------------------------------------------

/// `char::is_ascii`.
pub open spec fn is_ascii_char(c: char) -> bool {
    (c as u32) < 128
}

/// The ASCII characters of `s`, in order.
pub open spec fn ascii_only(s: Seq<char>) -> Seq<char>
    decreases s.len(),
{
    if s.len() == 0 {
        seq![]
    } else {
        (if is_ascii_char(s[0]) {
            seq![s[0]]
        } else {
            seq![]
        }) + ascii_only(s.drop_first())
    }
}

proof fn lemma_ascii_only(s: Seq<char>)
    ensures
        forall|i: int| 0 <= i < ascii_only(s).len() ==> is_ascii_char(#[trigger] ascii_only(s)[i]),
        (forall|i: int| 0 <= i < s.len() ==> is_ascii_char(#[trigger] s[i])) ==> ascii_only(s) == s,
    decreases s.len(),
{
    if s.len() > 0 {
        lemma_ascii_only(s.drop_first());
        let head: Seq<char> = if is_ascii_char(s[0]) {
            seq![s[0]]
        } else {
            seq![]
        };
        let rest = ascii_only(s.drop_first());
        assert forall|i: int| 0 <= i < (head + rest).len() implies is_ascii_char(
            #[trigger] (head + rest)[i],
        ) by {
            if i >= head.len() {
                assert((head + rest)[i] == rest[i - head.len()]);
            }
        }
        if forall|i: int| 0 <= i < s.len() ==> is_ascii_char(#[trigger] s[i]) {
            assert(is_ascii_char(s[0]));
            assert forall|i: int| 0 <= i < s.drop_first().len() implies is_ascii_char(
                #[trigger] s.drop_first()[i],
            ) by {
                assert(s.drop_first()[i] == s[i + 1]);
            }
            assert(head + rest =~= s);
        }
    }
}

/// Law: only ASCII is left, and filtering again changes nothing.
pub proof fn law_get_ascii_idempotent(s: Seq<char>)
    ensures
        forall|i: int| 0 <= i < ascii_only(s).len() ==> is_ascii_char(#[trigger] ascii_only(s)[i]),
        ascii_only(ascii_only(s)) == ascii_only(s),
{
    lemma_ascii_only(s);
    lemma_ascii_only(ascii_only(s));
}

/// Gets only ascii characters from the string.
pub fn get_ascii(string: &str) -> (r: String)
    ensures
        r@ == ascii_only(string@),
{
    let s = chars_of(string);
    let mut out: Vec<char> = Vec::new();
    assert(s@.skip(0) =~= s@);
    for i in 0..s.len()
        invariant
            out@ + ascii_only(s@.skip(i as int)) == ascii_only(s@),
    {
        let ghost rest = s@.skip(i as int);
        assert(rest[0] == s@[i as int]);
        assert(rest.drop_first() =~= s@.skip(i + 1));
        let ghost old_out = out@;
        let c = s[i];
        if (c as u32) < 128 {
            out.push(c);
        }
        assert(old_out + ascii_only(rest) =~= out@ + ascii_only(s@.skip(i + 1)));
    }
    assert(s@.skip(s.len() as int) =~= Seq::<char>::empty());
    assert(out@ + Seq::<char>::empty() =~= out@);
    string_of(&out)
}

// ---------------------------------------------------------------------------
// Comment lines
// ---------------------------------------------------------------------------

/// A line that is only a comment: it starts with `//` or `#`.
pub open spec fn is_comment_line(l: Seq<char>) -> bool {
    starts_with(l, seq!['/', '/']) || starts_with(l, seq!['#'])
}

/// Each line of `ls` that is not a comment, followed by `'\n'`.
pub open spec fn kept_lines(ls: Seq<Seq<char>>) -> Seq<char>
    decreases ls.len(),
{
    if ls.len() == 0 {
        seq![]
    } else {
        (if is_comment_line(ls[0]) {
            seq![]
        } else {
            ls[0].push('\n')
        }) + kept_lines(ls.drop_first())
    }
}

/// What removing the comment lines of `s` gives.
pub open spec fn spec_erase_comment_lines(s: Seq<char>) -> Seq<char> {
    kept_lines(lines(s))
}

fn is_comment_exec(l: &Vec<char>) -> (r: bool)
    ensures
        r == is_comment_line(l@),
{
    let r1 = l.len() >= 2 && l[0] == '/' && l[1] == '/';
    let r2 = l.len() >= 1 && l[0] == '#';
    proof {
        if l@.len() >= 2 {
            if r1 {
                assert(l@.take(2) =~= seq!['/', '/']);
            } else if l@.take(2) == seq!['/', '/'] {
                assert(l@.take(2)[0] == '/' && l@.take(2)[1] == '/');
            }
        }
        if l@.len() >= 1 {
            if r2 {
                assert(l@.take(1) =~= seq!['#']);
            } else if l@.take(1) == seq!['#'] {
                assert(l@.take(1)[0] == '#');
            }
        }
    }
    r1 || r2
}

pub fn erase_comment_lines_chars(patch: &Vec<char>) -> (r: Vec<char>)
    ensures
        r@ == spec_erase_comment_lines(patch@),
{
    let ls = lines_of(patch);
    let ghost vs = views(ls@);
    let mut out: Vec<char> = Vec::new();
    assert(vs.skip(0) =~= vs);
    for i in 0..ls.len()
        invariant
            vs == views(ls@),
            vs == lines(patch@),
            out@ + kept_lines(vs.skip(i as int)) == kept_lines(vs),
    {
        let ghost rest = vs.skip(i as int);
        let line = &ls[i];
        assert(rest[0] == line@);
        assert(rest.drop_first() =~= vs.skip(i + 1));
        let ghost old_out = out@;
        if !is_comment_exec(line) {
            push_all(&mut out, line);
            out.push('\n');
            assert(old_out + kept_lines(rest) =~= out@ + kept_lines(vs.skip(i + 1)));
        } else {
            assert(old_out + kept_lines(rest) =~= out@ + kept_lines(vs.skip(i + 1)));
        }
    }
    assert(vs.skip(ls.len() as int) =~= Seq::<Seq<char>>::empty());
    assert(out@ + Seq::<char>::empty() =~= out@);
    out
}

/// The lines of `ls` that are not comments.
pub open spec fn non_comment(ls: Seq<Seq<char>>) -> Seq<Seq<char>>
    decreases ls.len(),
{
    if ls.len() == 0 {
        seq![]
    } else {
        (if is_comment_line(ls[0]) {
            seq![]
        } else {
            seq![ls[0]]
        }) + non_comment(ls.drop_first())
    }
}

pub proof fn lemma_kept_is_join(ls: Seq<Seq<char>>)
    ensures
        kept_lines(ls) == join_lines(non_comment(ls)),
    decreases ls.len(),
{
    if ls.len() > 0 {
        lemma_kept_is_join(ls.drop_first());
        let rest = non_comment(ls.drop_first());
        if !is_comment_line(ls[0]) {
            let nc = seq![ls[0]] + rest;
            assert(nc[0] == ls[0]);
            assert(nc.drop_first() =~= rest);
        } else {
            assert(seq![] + rest =~= rest);
            assert(Seq::<char>::empty() + kept_lines(ls.drop_first()) =~= kept_lines(ls.drop_first()));
        }
    }
}

proof fn lemma_non_comment_idempotent(ls: Seq<Seq<char>>)
    ensures
        non_comment(non_comment(ls)) == non_comment(ls),
        forall|i: int| 0 <= i < non_comment(ls).len() ==> !is_comment_line(#[trigger] non_comment(ls)[i]),
        forall|i: int| 0 <= i < non_comment(ls).len() ==> ls.contains(#[trigger] non_comment(ls)[i]),
    decreases ls.len(),
{
    if ls.len() > 0 {
        lemma_non_comment_idempotent(ls.drop_first());
        let rest = non_comment(ls.drop_first());
        if !is_comment_line(ls[0]) {
            let nc = seq![ls[0]] + rest;
            assert(nc[0] == ls[0]);
            assert(nc.drop_first() =~= rest);
            assert forall|i: int| 0 <= i < nc.len() implies ls.contains(#[trigger] nc[i]) by {
                if i == 0 {
                    assert(ls[0] == nc[0]);
                } else {
                    assert(nc[i] == rest[i - 1]);
                    let j = choose|j: int| 0 <= j < ls.drop_first().len() && ls.drop_first()[j] == rest[i - 1];
                    assert(ls[j + 1] == nc[i]);
                }
            }
            assert forall|i: int| 0 <= i < nc.len() implies !is_comment_line(#[trigger] nc[i]) by {
                if i > 0 {
                    assert(nc[i] == rest[i - 1]);
                }
            }
            assert(non_comment(nc) =~= seq![ls[0]] + non_comment(rest));
        } else {
            assert(seq![] + rest =~= rest);
            assert forall|i: int| 0 <= i < rest.len() implies ls.contains(#[trigger] rest[i]) by {
                let j = choose|j: int| 0 <= j < ls.drop_first().len() && ls.drop_first()[j] == rest[i];
                assert(ls[j + 1] == rest[i]);
            }
        }
    }
}

/// Law: once comment lines are removed, the lines of the result are the
/// non-comment lines of the input, and removing comment lines again changes
/// nothing; this holds when no kept line ends with a carriage return.
pub proof fn law_erase_comment_lines_idempotent(s: Seq<char>)
    requires
        forall|i: int|
            0 <= i < lines(s).len() && !is_comment_line(#[trigger] lines(s)[i]) ==> !(lines(s)[i].len()
                > 0 && lines(s)[i].last() == '\r'),
    ensures
        lines(spec_erase_comment_lines(s)) == non_comment(lines(s)),
        spec_erase_comment_lines(spec_erase_comment_lines(s)) == spec_erase_comment_lines(s),
{
    let ls = lines(s);
    let kept = non_comment(ls);
    lemma_kept_is_join(ls);
    lemma_non_comment_idempotent(ls);
    lemma_lines_have_no_newline(s);
    assert forall|i: int| 0 <= i < kept.len() implies plain_line(#[trigger] kept[i]) by {
        assert(ls.contains(kept[i]));
        let j = choose|j: int| 0 <= j < ls.len() && ls[j] == kept[i];
        assert(!is_comment_line(ls[j]));
    }
    lemma_lines_of_join(kept);
    lemma_kept_is_join(kept);
}

/// Remove lines that are just purely a comment.
pub fn erase_comment_lines(patch: String) -> (r: String)
    ensures
        r@ == spec_erase_comment_lines(patch@),
{
    let chars = chars_of(patch.as_str());
    let out = erase_comment_lines_chars(&chars);
    string_of(&out)
}

// ---------------------------------------------------------------------------
// Replacing bytes
// ---------------------------------------------------------------------------

fn bytes_occur_at(s: &[u8], p: &[u8], i: usize) -> (r: bool)
    requires
        i + p.len() <= s.len(),
    ensures
        r == (s@.subrange(i as int, i + p.len()) == p@),
{
    let mut j: usize = 0;
    while j < p.len()
        invariant
            i + p.len() <= s.len(),
            j <= p.len(),
            forall|k: int| 0 <= k < j ==> s@[i + k] == p@[k],
        decreases p.len() - j,
    {
        if s[i + j] != p[j] {
            assert(s@.subrange(i as int, i + p.len())[j as int] != p@[j as int]);
            return false;
        }
        j = j + 1;
    }
    assert(s@.subrange(i as int, i + p.len()) =~= p@);
    true
}

/// Replaces a byte-array with another byte-array.
/// For example: `replace_bytes(source, b"Hello", b"World")`
pub fn replace_bytes(source: &[u8], from: &[u8], to: &[u8]) -> (r: Vec<u8>)
    requires
        from.len() > 0,
    ensures
        r@ == replace_all(source@, from@, to@),
{
    let mut out: Vec<u8> = Vec::new();
    let mut i: usize = 0;
    assert(source@.skip(0) =~= source@);
    while i < source.len()
        invariant
            i <= source.len(),
            from@.len() > 0,
            out@ + replace_all(source@.skip(i as int), from@, to@) == replace_all(
                source@,
                from@,
                to@,
            ),
        decreases source.len() - i,
    {
        let ghost rest = source@.skip(i as int);
        let ghost old_out = out@;
        if from.len() <= source.len() - i && bytes_occur_at(source, from, i) {
            assert(rest.take(from@.len() as int) =~= source@.subrange(i as int, i + from@.len()));
            assert(rest.skip(from@.len() as int) =~= source@.skip(i + from@.len()));
            for k in 0..to.len()
                invariant
                    out@ == old_out + to@.take(k as int),
            {
                out.push(to[k]);
                assert(to@.take(k + 1) =~= to@.take(k as int).push(to@[k as int]));
            }
            assert(to@.take(to@.len() as int) =~= to@);
            assert(old_out + replace_all(rest, from@, to@) =~= out@ + replace_all(
                source@.skip(i + from@.len()),
                from@,
                to@,
            ));
            i = i + from.len();
        } else {
            if from.len() <= source.len() - i {
                assert(rest.take(from@.len() as int) =~= source@.subrange(
                    i as int,
                    i + from@.len(),
                ));
            }
            assert(rest.drop_first() =~= source@.skip(i + 1));
            assert(rest[0] == source@[i as int]);
            out.push(source[i]);
            assert(old_out + replace_all(rest, from@, to@) =~= out@ + replace_all(
                source@.skip(i + 1),
                from@,
                to@,
            ));
            i = i + 1;
        }
    }
    assert(source@.skip(i as int) =~= Seq::<u8>::empty());
    assert(out@ + Seq::<u8>::empty() =~= out@);
    out
}

/// How many matches of `from` `replace_all(s, from, ..)` replaces.
pub open spec fn replacements<T>(s: Seq<T>, from: Seq<T>) -> nat
    decreases s.len(),
{
    if from.len() == 0 || s.len() < from.len() {
        0
    } else if s.take(from.len() as int) == from {
        1 + replacements(s.skip(from.len() as int), from)
    } else {
        replacements(s.drop_first(), from)
    }
}

/// The number of replacements that [`replace_bytes`] makes.
pub fn replacement_count(source: &[u8], from: &[u8]) -> (r: usize)
    requires
        from.len() > 0,
    ensures
        r == replacements(source@, from@),
{
    let mut n: usize = 0;
    let mut i: usize = 0;
    assert(source@.skip(0) =~= source@);
    while i < source.len()
        invariant
            i <= source.len(),
            from@.len() > 0,
            n <= i,
            n + replacements(source@.skip(i as int), from@) == replacements(source@, from@),
        decreases source.len() - i,
    {
        let ghost rest = source@.skip(i as int);
        if from.len() <= source.len() - i && bytes_occur_at(source, from, i) {
            assert(rest.take(from@.len() as int) =~= source@.subrange(i as int, i + from@.len()));
            assert(rest.skip(from@.len() as int) =~= source@.skip(i + from@.len()));
            n = n + 1;
            i = i + from.len();
        } else {
            if from.len() <= source.len() - i {
                assert(rest.take(from@.len() as int) =~= source@.subrange(
                    i as int,
                    i + from@.len(),
                ));
            }
            assert(rest.drop_first() =~= source@.skip(i + 1));
            i = i + 1;
        }
    }
    assert(source@.skip(i as int) =~= Seq::<u8>::empty());
    n
}

/// Law: replacing with a block of the same length, as a patch does, keeps
/// the length of the whole.
pub proof fn law_same_length_replace_keeps_length(s: Seq<u8>, from: Seq<u8>, to: Seq<u8>)
    requires
        from.len() > 0,
        to.len() == from.len(),
    ensures
        replace_all(s, from, to).len() == s.len(),
    decreases s.len(),
{
    if s.len() >= from.len() {
        if s.take(from.len() as int) == from {
            law_same_length_replace_keeps_length(s.skip(from.len() as int), from, to);
        } else {
            law_same_length_replace_keeps_length(s.drop_first(), from, to);
        }
    }
}

// ---------------------------------------------------------------------------
// Hexadecimal
// ---------------------------------------------------------------------------

pub open spec fn is_hex_digit(b: u8) -> bool {
    (0x30 <= b <= 0x39) || (0x41 <= b <= 0x46) || (0x61 <= b <= 0x66)
}

/// The value of a hexadecimal digit, of either case.
pub open spec fn hex_value(b: u8) -> int {
    if b <= 0x39 {
        b - 0x30
    } else if b <= 0x46 {
        b - 0x41 + 10
    } else {
        b - 0x61 + 10
    }
}

/// `hex::decode`: an even number of hexadecimal digits, each pair one byte,
/// high nibble first; `None` for anything else.
pub open spec fn hex_decoded(d: Seq<u8>) -> Option<Seq<u8>> {
    if d.len() % 2 == 0 && forall|i: int| 0 <= i < d.len() ==> #[trigger] is_hex_digit(d[i]) {
        Some(Seq::new((d.len() / 2) as nat, |i: int| (hex_value(d[2 * i]) * 16 + hex_value(d[2 * i + 1])) as u8))
    } else {
        None
    }
}

/// The error type of `hex::decode`.
#[verifier::external_type_specification]
#[verifier::external_body]
pub struct ExFromHexError(hex::FromHexError);

/// `hex::decode` of the `hex` crate. Claimed: it succeeds exactly on an even
/// number of hexadecimal digits (upper or lower case), and then gives one byte
/// per pair of digits, the first digit being the high nibble; this is what
/// `FromHex for Vec<u8>` and its `val` function do.
#[verifier::external_body]
fn hex_decode(data: &[u8]) -> (r: Result<Vec<u8>, hex::FromHexError>)
    ensures
        match r {
            Ok(v) => hex_decoded(data@) == Some(v@),
            Err(_) => hex_decoded(data@) is None,
        },
{
    hex::decode(data)
}

/// `String::from_utf8` of std. Claimed: it accepts exactly the valid UTF-8
/// byte strings, and the string it gives holds the characters they encode.
#[verifier::external_body]
fn string_from_utf8(bytes: Vec<u8>) -> (r: Option<String>)
    ensures
        match r {
            Some(s) => vstd::utf8::valid_utf8(bytes@) && s@ == vstd::utf8::decode_utf8(bytes@),
            None => !vstd::utf8::valid_utf8(bytes@),
        },
{
    String::from_utf8(bytes).ok()
}

/// The hex text `hex` decodes to text: its bytes are hexadecimal and, so
/// decoded, valid UTF-8.
pub open spec fn hex_is_text(hex: Seq<char>) -> bool {
    hex_decoded(vstd::utf8::encode_utf8(hex)) matches Some(b) ==> vstd::utf8::valid_utf8(b)
}

/// The lower-case hexadecimal digit of `n`, as an ASCII byte.
pub open spec fn hex_digit_byte(n: int) -> u8 {
    if n < 10 {
        (0x30 + n) as u8
    } else {
        (0x61 + n - 10) as u8
    }
}

/// `hex::encode`: two lower-case hexadecimal digits per byte, high nibble
/// first, as ASCII bytes.
pub open spec fn hex_bytes(b: Seq<u8>) -> Seq<u8> {
    Seq::new(
        2 * b.len(),
        |i: int|
            hex_digit_byte(
                if i % 2 == 0 {
                    b[i / 2] / 16
                } else {
                    b[i / 2] % 16
                } as int,
            ),
    )
}

/// Law: the hexadecimal text of a string's bytes, such as `hex::encode`
/// writes, decodes to text, and decoding it gives the string back.
pub proof fn law_hex_round_trip(s: Seq<char>, hex: Seq<char>)
    requires
        vstd::utf8::encode_utf8(hex) == hex_bytes(vstd::utf8::encode_utf8(s)),
    ensures
        hex_is_text(hex),
        hex_decoded(vstd::utf8::encode_utf8(hex)) == Some(vstd::utf8::encode_utf8(s)),
        vstd::utf8::decode_utf8(vstd::utf8::encode_utf8(s)) == s,
{
    let b = vstd::utf8::encode_utf8(s);
    let d = hex_bytes(b);
    assert forall|i: int| 0 <= i < d.len() implies #[trigger] is_hex_digit(d[i]) && hex_value(d[i])
        == (if i % 2 == 0 {
        b[i / 2] / 16
    } else {
        b[i / 2] % 16
    }) by {}
    let out = Seq::new(
        (d.len() / 2) as nat,
        |i: int| (hex_value(d[2 * i]) * 16 + hex_value(d[2 * i + 1])) as u8,
    );
    assert forall|i: int| 0 <= i < b.len() implies out[i] == b[i] by {
        assert(d[2 * i] == hex_digit_byte((b[i] / 16) as int));
        assert(d[2 * i + 1] == hex_digit_byte((b[i] % 16) as int));
        assert(hex_value(d[2 * i]) == b[i] / 16);
        assert(hex_value(d[2 * i + 1]) == b[i] % 16);
    }
    assert(out =~= b);
    vstd::utf8::encode_utf8_valid_utf8(s);
    vstd::utf8::encode_utf8_decode_utf8(s);
}

/// Whether [`hex_to_string`] can be called on `hex`: its bytes are not
/// hexadecimal, or, decoded, they are valid UTF-8.
pub fn is_hex_text(hex: &str) -> (r: bool)
    ensures
        r == hex_is_text(hex@),
{
    match hex_decode(hex.as_bytes()) {
        Ok(bytes) => string_from_utf8(bytes).is_some(),
        Err(_) => true,
    }
}

/// Converts a Hex-value to a String.
pub fn hex_to_string(hex: String) -> (r: Result<String, PatchError>)
    requires
        hex_is_text(hex@),
    ensures
        match hex_decoded(vstd::utf8::encode_utf8(hex@)) {
            Some(b) => r matches Ok(s) && s@ == vstd::utf8::decode_utf8(b),
            None => r matches Err(PatchError::InvalidHex { hex: h }) && h@ == hex@,
        },
{
    let decoded = hex_decode(hex.as_str().as_bytes());
    match decoded {
        Ok(bytes) => {
            match string_from_utf8(bytes) {
                Some(s) => Ok(s),
                None => Err(PatchError::InvalidHex { hex }),
            }
        },
        Err(_) => Err(PatchError::InvalidHex { hex }),
    }
}

} // verus!
