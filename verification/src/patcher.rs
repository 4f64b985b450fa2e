//! Fitting patched code into the buffer it replaces.
use vstd::prelude::*;
use vstd::utf8::encode_utf8;

use crate::text::{byte_len, char_width, chars_of, lemma_byte_len_concat, lemma_byte_len_encode, string_of, utf8_width};
use crate::utils::replace_bytes;
use crate::text::{law_replace_back, occurs_at, replace_all, written_at};

verus! {

/// `k` NUL characters.
pub open spec fn nul_padding(k: nat) -> Seq<char> {
    Seq::new(k, |i: int| '\0')
}

/// The longest prefix of `s` that takes at most `n` UTF-8 bytes.
pub open spec fn prefix_within(s: Seq<char>, n: nat) -> Seq<char>
    decreases s.len(),
{
    if byte_len(s) <= n || s.len() == 0 {
        s
    } else {
        prefix_within(s.drop_last(), n)
    }
}

/// `new_code`, cut to the characters that fit in the UTF-8 length of
/// `old_code`, followed by as many NUL bytes as it is then shorter.
pub open spec fn padded(old_code: Seq<char>, new_code: Seq<char>) -> Seq<char> {
    let kept = prefix_within(new_code, byte_len(old_code));
    kept + nul_padding((byte_len(old_code) - byte_len(kept)) as nat)
}

proof fn lemma_prefix_within(s: Seq<char>, n: nat)
    ensures
        byte_len(prefix_within(s, n)) <= n,
        byte_len(s) <= n ==> prefix_within(s, n) == s,
    decreases s.len(),
{
    if !(byte_len(s) <= n || s.len() == 0) {
        lemma_prefix_within(s.drop_last(), n);
    }
}

/// Whatever its length, the fitted code takes exactly as many bytes as the
/// code it replaces, and a code that fits is only padded.
pub proof fn lemma_padded(old_code: Seq<char>, new_code: Seq<char>)
    ensures
        byte_len(padded(old_code, new_code)) == byte_len(old_code),
        byte_len(new_code) <= byte_len(old_code) ==> padded(old_code, new_code) == new_code
            + nul_padding((byte_len(old_code) - byte_len(new_code)) as nat),
{
    let kept = prefix_within(new_code, byte_len(old_code));
    lemma_prefix_within(new_code, byte_len(old_code));
    lemma_nul_padding_bytes((byte_len(old_code) - byte_len(kept)) as nat);
    lemma_byte_len_concat(kept, nul_padding((byte_len(old_code) - byte_len(kept)) as nat));
}

proof fn lemma_nul_padding_bytes(k: nat)
    ensures
        byte_len(nul_padding(k)) == k,
    decreases k,
{
    if k > 0 {
        assert(nul_padding(k).drop_first() =~= nul_padding((k - 1) as nat));
        lemma_nul_padding_bytes((k - 1) as nat);
    }
}

/// The UTF-8 length of `v`.
pub fn byte_len_exec(v: &Vec<char>) -> (n: u128)
    ensures
        n == byte_len(v@),
{
    let mut n: u128 = 0;
    for i in 0..v.len()
        invariant
            n == byte_len(v@.take(i as int)),
            n <= 4 * i,
    {
        let c = v[i];
        proof {
            assert(v@.take(i + 1) =~= v@.take(i as int) + seq![c]);
            lemma_byte_len_concat(v@.take(i as int), seq![c]);
            assert(seq![c].drop_first() =~= Seq::<char>::empty());
        }
        let w = char_width(c);
        assert(byte_len(seq![c]) == utf8_width(c) + byte_len(Seq::<char>::empty()));
        n = n + w as u128;
    }
    assert(v@.take(v.len() as int) =~= v@);
    n
}

/// Generates the remaining null-bytes (`\0`) needed for `new_code` to be the
/// exact same length as `old_code`.
/// If the value of `new_code` is longer than `old_code`, then it is truncated
/// to fit the size (at a character boundary), which may lead to issues
/// in-game.
pub fn generate_remaining_for(old_code: String, new_code: String) -> (r: String)
    ensures
        r@ == padded(old_code@, new_code@),
        byte_len(r@) == byte_len(old_code@),
{
    let old_chars = chars_of(old_code.as_str());
    let mut out = chars_of(new_code.as_str());
    let old_len = byte_len_exec(&old_chars);
    let mut cur_len = byte_len_exec(&out);
    let ghost limit = byte_len(old_code@);
    while cur_len > old_len
        invariant
            old_len == limit,
            cur_len == byte_len(out@),
            prefix_within(new_code@, limit) == prefix_within(out@, limit),
        decreases out.len(),
    {
        let ghost before = out@;
        proof {
            if out.len() == 0 {
                assert(byte_len(out@) == 0);
            }
            assert(before.drop_last() + seq![before.last()] =~= before);
            lemma_byte_len_concat(before.drop_last(), seq![before.last()]);
            assert(seq![before.last()].drop_first() =~= Seq::<char>::empty());
            assert(byte_len(seq![before.last()]) == utf8_width(before.last()) + byte_len(
                Seq::<char>::empty(),
            ));
        }
        let c = out.pop().unwrap();
        assert(out@ == before.drop_last());
        assert(c == before.last());
        let w = char_width(c);
        cur_len = cur_len - w as u128;
    }
    proof {
        lemma_prefix_within(out@, limit);
    }
    let missing = old_len - cur_len;
    let ghost kept = out@;
    let mut k: u128 = 0;
    assert(out@ =~= kept + nul_padding(0));
    while k < missing
        invariant
            k <= missing,
            out@ == kept + nul_padding(k as nat),
        decreases missing - k,
    {
        out.push('\0');
        assert(out@ =~= kept + nul_padding((k + 1) as nat));
        k = k + 1;
    }
    proof {
        lemma_padded(old_code@, new_code@);
    }
    string_of(&out)
}

/// The patched contents of a buffer file: every occurrence of the bytes of
/// `from` replaced by the bytes of `to` fitted to the length of `from`.
pub fn override_contents(contents: &[u8], from: &str, to: &str) -> (r: Vec<u8>)
    requires
        from@.len() > 0,
    ensures
        r@ == replace_all(
            contents@,
            vstd::utf8::encode_utf8(from@),
            vstd::utf8::encode_utf8(padded(from@, to@)),
        ),
        r@.len() == contents@.len(),
{
    let to_padded = generate_remaining_for(from.to_owned(), to.to_owned());
    let from_bytes = from.as_bytes();
    let to_bytes = to_padded.as_str().as_bytes();
    proof {
        lemma_byte_len_encode(from@);
        lemma_byte_len_encode(to_padded@);
        assert(byte_len(from@) >= utf8_width(from@[0]));
        crate::utils::law_same_length_replace_keeps_length(contents@, from_bytes@, to_bytes@);
    }
    replace_bytes(contents, from_bytes, to_bytes)
}

/// Law: reverting a patch gives the buffer file back. Patching writes the
/// fitted patch over each copy of the game's code; reverting looks for the
/// fitted patch and writes the code back (fitted to the same length, so
/// unchanged). This holds whenever the fitted patch occurs in the patched
/// file only where it was written.
pub proof fn law_revert_restores(contents: Seq<u8>, decoded: Seq<char>, patch: Seq<char>)
    requires
        decoded.len() > 0,
        ({
            let d = encode_utf8(decoded);
            let w = encode_utf8(padded(decoded, patch));
            forall|j: int| #[trigger] occurs_at(replace_all(contents, d, w), w, j) ==> written_at(
                contents,
                d,
                w,
                j,
            )
        }),
    ensures
        ({
            let written = padded(decoded, patch);
            let patched = replace_all(contents, encode_utf8(decoded), encode_utf8(written));
            replace_all(patched, encode_utf8(written), encode_utf8(padded(written, decoded)))
                == contents
        }),
{
    let written = padded(decoded, patch);
    lemma_padded(decoded, patch);
    lemma_padded(written, decoded);
    assert(padded(written, decoded) =~= decoded + nul_padding(0));
    assert(padded(written, decoded) =~= decoded);
    lemma_byte_len_encode(decoded);
    lemma_byte_len_encode(written);
    assert(byte_len(decoded) >= utf8_width(decoded[0]));
    law_replace_back(contents, encode_utf8(decoded), encode_utf8(written));
}

} // verus!
