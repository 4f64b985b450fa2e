//! Text as sequences of `char`: the model of `str` that every contract of the
//! crate speaks of, and verified routines over `Vec<char>`.
use vstd::prelude::*;

verus! {

// ---------------------------------------------------------------------------
// Characters
// ---------------------------------------------------------------------------

/// `char::is_whitespace`: the characters with the Unicode `White_Space` property.
pub open spec fn is_ws(c: char) -> bool {
    let v = c as u32;
    ||| 0x09 <= v <= 0x0D
    ||| v == 0x20
    ||| v == 0x85
    ||| v == 0xA0
    ||| v == 0x1680
    ||| 0x2000 <= v <= 0x200A
    ||| v == 0x2028
    ||| v == 0x2029
    ||| v == 0x202F
    ||| v == 0x205F
    ||| v == 0x3000
}

pub fn is_whitespace(c: char) -> (b: bool)
    ensures
        b == is_ws(c),
{
    let v = c as u32;
    (0x09 <= v && v <= 0x0D) || v == 0x20 || v == 0x85 || v == 0xA0 || v == 0x1680 || (0x2000
        <= v && v <= 0x200A) || v == 0x2028 || v == 0x2029 || v == 0x202F || v == 0x205F || v
        == 0x3000
}

/// Number of bytes in the UTF-8 encoding of `c`.
pub open spec fn utf8_width(c: char) -> nat {
    let v = c as u32;
    if v < 0x80 {
        1
    } else if v < 0x800 {
        2
    } else if v < 0x10000 {
        3
    } else {
        4
    }
}

/// Number of bytes in the UTF-8 encoding of `s`: what `str::len` returns.
pub open spec fn byte_len(s: Seq<char>) -> nat
    decreases s.len(),
{
    if s.len() == 0 {
        0
    } else {
        utf8_width(s[0]) + byte_len(s.drop_first())
    }
}

/// Byte offset `b` of the UTF-8 encoding of `s` falls between two characters
/// (or at either end): what `str::is_char_boundary` decides.
pub open spec fn is_boundary(s: Seq<char>, b: int) -> bool
    decreases s.len(),
{
    if b == 0 {
        true
    } else if b < 0 || s.len() == 0 {
        false
    } else {
        is_boundary(s.drop_first(), b - utf8_width(s[0]))
    }
}

/// `byte_len(s) >= b`, computed from the front.
pub open spec fn has_bytes(s: Seq<char>, b: int) -> bool
    decreases s.len(),
{
    if b <= 0 {
        true
    } else if s.len() == 0 {
        false
    } else {
        has_bytes(s.drop_first(), b - utf8_width(s[0]))
    }
}

pub proof fn lemma_has_bytes(s: Seq<char>, b: int)
    ensures
        has_bytes(s, b) == (byte_len(s) >= b),
    decreases s.len(),
{
    if b > 0 && s.len() > 0 {
        lemma_has_bytes(s.drop_first(), b - utf8_width(s[0]));
    }
}

/// The byte length of two texts one after the other is the sum of theirs.
pub proof fn lemma_byte_len_concat(a: Seq<char>, b: Seq<char>)
    ensures
        byte_len(a + b) == byte_len(a) + byte_len(b),
    decreases a.len(),
{
    if a.len() > 0 {
        assert((a + b).drop_first() =~= a.drop_first() + b);
        assert((a + b)[0] == a[0]);
        lemma_byte_len_concat(a.drop_first(), b);
    } else {
        assert(a + b =~= b);
    }
}

/// `byte_len` is the length of the UTF-8 encoding that vstd specifies.
pub proof fn lemma_byte_len_encode(s: Seq<char>)
    ensures
        byte_len(s) == vstd::utf8::encode_utf8(s).len(),
    decreases s.len(),
{
    if s.len() > 0 {
        let c = s[0];
        vstd::utf8::char_is_scalar(c);
        lemma_byte_len_encode(s.drop_first());
    }
}

pub fn char_width(c: char) -> (w: usize)
    ensures
        w == utf8_width(c),
        1 <= w <= 4,
{
    let v = c as u32;
    if v < 0x80 {
        1
    } else if v < 0x800 {
        2
    } else if v < 0x10000 {
        3
    } else {
        4
    }
}

/// Whether the UTF-8 encoding of `s` has at least `b` bytes.
pub fn at_least_bytes(s: &Vec<char>, b: usize) -> (r: bool)
    ensures
        r == (byte_len(s@) >= b),
{
    proof {
        lemma_has_bytes(s@, b as int);
    }
    let mut i: usize = 0;
    let mut rest: usize = b;
    assert(s@.skip(0) =~= s@);
    while i < s.len() && rest > 0
        invariant
            i <= s.len(),
            has_bytes(s@, b as int) == has_bytes(s@.skip(i as int), rest as int),
        decreases s.len() - i,
    {
        let w = char_width(s[i]);
        assert(s@.skip(i as int).drop_first() =~= s@.skip(i + 1));
        assert(has_bytes(s@.skip(i as int), rest as int) == has_bytes(
            s@.skip(i + 1),
            rest - w,
        ));
        rest = if w >= rest {
            0
        } else {
            rest - w
        };
        i = i + 1;
    }
    rest == 0
}

/// Whether byte offset `b` of the UTF-8 encoding of `s` is a character boundary.
pub fn boundary_at(s: &Vec<char>, b: usize) -> (r: bool)
    ensures
        r == is_boundary(s@, b as int),
{
    let mut i: usize = 0;
    let mut rest: usize = b;
    assert(s@.skip(0) =~= s@);
    while i < s.len() && rest > 0
        invariant
            i <= s.len(),
            is_boundary(s@, b as int) == is_boundary(s@.skip(i as int), rest as int),
        decreases s.len() - i,
    {
        let w = char_width(s[i]);
        assert(s@.skip(i as int).drop_first() =~= s@.skip(i + 1));
        assert(is_boundary(s@.skip(i as int), rest as int) == is_boundary(
            s@.skip(i + 1),
            rest - w,
        ));
        if w > rest {
            return false;
        }
        rest = rest - w;
        i = i + 1;
    }
    rest == 0
}

// ---------------------------------------------------------------------------
// Conversions between `str` and `Vec<char>`
// ---------------------------------------------------------------------------

/// Collects the characters of `s`.
#[verifier::loop_isolation(false)]
pub fn chars_of(s: &str) -> (v: Vec<char>)
    ensures
        v@ == s@,
{
    let mut v: Vec<char> = Vec::new();
    for c in it: s.chars()
        invariant
            it.seq() == s@,
            v@ == s@.take(it.index() as int),
    {
        v.push(c);
    }
    v
}

/// `String::push` of std, which appends `c` to the end of `s`.
#[verifier::external_body]
fn push_char(s: &mut String, c: char)
    ensures
        final(s)@ == old(s)@.push(c),
{
    s.push(c);
}

/// The string made of the characters of `v`.
pub fn string_of(v: &Vec<char>) -> (s: String)
    ensures
        s@ == v@,
{
    let mut s = String::new();
    for i in 0..v.len()
        invariant
            s@ == v@.take(i as int),
    {
        push_char(&mut s, v[i]);
        assert(v@.take(i + 1) =~= v@.take(i as int).push(v@[i as int]));
    }
    assert(v@.take(v.len() as int) =~= v@);
    s
}

/// A copy of `v`.
pub fn copy_chars(v: &Vec<char>) -> (r: Vec<char>)
    ensures
        r@ == v@,
{
    let mut r: Vec<char> = Vec::new();
    push_all(&mut r, v);
    assert(Seq::<char>::empty() + v@ =~= v@);
    r
}

/// The characters of `v` from index `k` on.
pub fn skip_chars(v: &Vec<char>, k: usize) -> (r: Vec<char>)
    requires
        k <= v.len(),
    ensures
        r@ == v@.skip(k as int),
{
    let mut r: Vec<char> = Vec::new();
    let mut i: usize = k;
    while i < v.len()
        invariant
            k <= i <= v.len(),
            r@ == v@.subrange(k as int, i as int),
        decreases v.len() - i,
    {
        r.push(v[i]);
        assert(v@.subrange(k as int, i + 1) =~= v@.subrange(k as int, i as int).push(v@[i as int]));
        i = i + 1;
    }
    assert(v@.subrange(k as int, v.len() as int) =~= v@.skip(k as int));
    r
}

/// The first `k` characters of `v`.
pub fn take_chars(v: &Vec<char>, k: usize) -> (r: Vec<char>)
    requires
        k <= v.len(),
    ensures
        r@ == v@.take(k as int),
{
    let mut r: Vec<char> = Vec::new();
    for i in 0..k
        invariant
            k <= v.len(),
            r@ == v@.take(i as int),
    {
        r.push(v[i]);
        assert(v@.take(i + 1) =~= v@.take(i as int).push(v@[i as int]));
    }
    r
}

/// Whether `a` and `b` hold the same characters.
pub fn eq_chars(a: &Vec<char>, b: &Vec<char>) -> (r: bool)
    ensures
        r == (a@ == b@),
{
    if a.len() != b.len() {
        return false;
    }
    for i in 0..a.len()
        invariant
            a.len() == b.len(),
            forall|k: int| 0 <= k < i ==> a@[k] == b@[k],
    {
        if a[i] != b[i] {
            return false;
        }
    }
    assert(a@ =~= b@);
    true
}

// ---------------------------------------------------------------------------
// Prefixes, suffixes, occurrences
// ---------------------------------------------------------------------------

pub open spec fn starts_with<T>(s: Seq<T>, p: Seq<T>) -> bool {
    p.len() <= s.len() && s.take(p.len() as int) == p
}

pub open spec fn ends_with<T>(s: Seq<T>, p: Seq<T>) -> bool {
    p.len() <= s.len() && s.skip(s.len() - p.len()) == p
}

/// `p` occurs in `s` at index `i`.
pub open spec fn occurs_at<T>(s: Seq<T>, p: Seq<T>, i: int) -> bool {
    0 <= i && i + p.len() <= s.len() && s.subrange(i, i + p.len()) == p
}

/// `str::contains` with a string pattern.
pub open spec fn contains<T>(s: Seq<T>, p: Seq<T>) -> bool {
    exists|i: int| occurs_at(s, p, i)
}

pub fn occurs_at_exec(s: &Vec<char>, p: &Vec<char>, i: usize) -> (r: bool)
    ensures
        r == occurs_at(s@, p@, i as int),
{
    if i > s.len() || p.len() > s.len() - i {
        return false;
    }
    let mut j: usize = 0;
    while j < p.len()
        invariant
            i + p.len() <= s.len(),
            j <= p.len(),
            forall|k: int| 0 <= k < j ==> s@[i + k] == p@[k],
        decreases p.len() - j,
    {
        if s[i + j] != p[j] {
            assert(s@.subrange(i as int, i + p.len())[j as int] != p@[j as int]);
            return false;
        }
        j = j + 1;
    }
    assert(s@.subrange(i as int, i + p.len()) =~= p@);
    true
}

pub fn starts_with_exec(s: &Vec<char>, p: &Vec<char>) -> (r: bool)
    ensures
        r == starts_with(s@, p@),
{
    let r = occurs_at_exec(s, p, 0);
    proof {
        if p@.len() <= s@.len() {
            assert(s@.subrange(0, p@.len() as int) =~= s@.take(p@.len() as int));
        }
    }
    r
}

pub fn ends_with_exec(s: &Vec<char>, p: &Vec<char>) -> (r: bool)
    ensures
        r == ends_with(s@, p@),
{
    if p.len() > s.len() {
        return false;
    }
    let r = occurs_at_exec(s, p, s.len() - p.len());
    assert(s@.subrange(s.len() - p.len(), s.len() as int) =~= s@.skip(s.len() - p.len()));
    r
}

pub fn contains_exec(s: &Vec<char>, p: &Vec<char>) -> (r: bool)
    ensures
        r == contains(s@, p@),
{
    if p.len() > s.len() {
        assert forall|i: int| !occurs_at(s@, p@, i) by {}
        return false;
    }
    let mut i: usize = 0;
    loop
        invariant
            p.len() <= s.len(),
            i <= s.len() - p.len(),
            forall|k: int| 0 <= k < i ==> !occurs_at(s@, p@, k),
        decreases s.len() - p.len() - i,
    {
        if occurs_at_exec(s, p, i) {
            return true;
        }
        if i == s.len() - p.len() {
            assert forall|k: int| !occurs_at(s@, p@, k) by {}
            return false;
        }
        i = i + 1;
    }
}

/// Index of the first occurrence of `p` in `s` at or after `from`, or -1.
pub open spec fn find_seq<T>(s: Seq<T>, p: Seq<T>, from: int) -> int
    decreases s.len() + 1 - from,
{
    if from < 0 || from + p.len() > s.len() {
        -1
    } else if occurs_at(s, p, from) {
        from
    } else {
        find_seq(s, p, from + 1)
    }
}

pub proof fn lemma_find_seq<T>(s: Seq<T>, p: Seq<T>, from: int)
    requires
        0 <= from,
    ensures
        find_seq(s, p, from) == -1 || (from <= find_seq(s, p, from) && occurs_at(
            s,
            p,
            find_seq(s, p, from),
        )),
        forall|k: int|
            from <= k && (find_seq(s, p, from) == -1 || k < find_seq(s, p, from))
                ==> !#[trigger] occurs_at(s, p, k),
    decreases s.len() + 1 - from,
{
    if from + p.len() <= s.len() && !occurs_at(s, p, from) {
        lemma_find_seq(s, p, from + 1);
    }
}

/// Index of the first occurrence of `p` in `s` at or after `from`.
pub fn find_seq_exec(s: &Vec<char>, p: &Vec<char>, from: usize) -> (r: Option<usize>)
    ensures
        match r {
            Some(k) => find_seq(s@, p@, from as int) == k,
            None => find_seq(s@, p@, from as int) == -1,
        },
{
    let mut k: usize = from;
    while k <= s.len() && p.len() <= s.len() - k
        invariant
            from <= k,
            find_seq(s@, p@, from as int) == find_seq(s@, p@, k as int),
        decreases s.len() + 1 - k,
    {
        if occurs_at_exec(s, p, k) {
            return Some(k);
        }
        if k == s.len() {
            assert(find_seq(s@, p@, k + 1) == -1);
            return None;
        }
        k = k + 1;
    }
    None
}

/// Whether `s` contains the character `c`.
pub fn has_char(s: &Vec<char>, c: char) -> (r: bool)
    ensures
        r == s@.contains(c),
{
    for i in 0..s.len()
        invariant
            forall|k: int| 0 <= k < i ==> s@[k] != c,
    {
        if s[i] == c {
            return true;
        }
    }
    false
}

/// Index of the first `c` in `s`, or -1.
pub open spec fn first_index(s: Seq<char>, c: char) -> int
    decreases s.len(),
{
    if s.len() == 0 {
        -1
    } else if s[0] == c {
        0
    } else {
        let r = first_index(s.drop_first(), c);
        if r < 0 {
            -1
        } else {
            r + 1
        }
    }
}

pub proof fn lemma_first_index(s: Seq<char>, c: char, i: int)
    requires
        -1 <= i <= s.len(),
        i >= 0 ==> i < s.len() && s[i] == c,
        forall|k: int| 0 <= k < s.len() && (i < 0 || k < i) ==> s[k] != c,
    ensures
        first_index(s, c) == i,
    decreases s.len(),
{
    if s.len() > 0 && i != 0 {
        let t = s.drop_first();
        assert(s[0] != c);
        assert forall|k: int| 0 <= k < t.len() && (i - 1 < 0 || k < i - 1) implies t[k] != c by {
            assert(t[k] == s[k + 1]);
        }
        if i > 0 {
            assert(t[i - 1] == s[i]);
            lemma_first_index(t, c, i - 1);
        } else {
            lemma_first_index(t, c, -1);
        }
    }
}

/// What `first_index` gives: -1 when `c` is not in `s`, else an index of
/// `c` with none before it.
pub proof fn lemma_first_index_facts(s: Seq<char>, c: char)
    ensures
        -1 <= first_index(s, c) < s.len(),
        first_index(s, c) >= 0 ==> s[first_index(s, c)] == c,
        forall|k: int|
            0 <= k < s.len() && (first_index(s, c) < 0 || k < first_index(s, c)) ==> s[k] != c,
        s.contains(c) ==> first_index(s, c) >= 0,
    decreases s.len(),
{
    if s.len() > 0 && s[0] != c {
        let t = s.drop_first();
        lemma_first_index_facts(t, c);
        assert forall|k: int|
            0 <= k < s.len() && (first_index(s, c) < 0 || k < first_index(s, c)) implies s[k]
            != c by {
            if k > 0 {
                assert(s[k] == t[k - 1]);
            }
        }
        if s.contains(c) {
            let j = choose|j: int| 0 <= j < s.len() && s[j] == c;
            assert(t[j - 1] == c);
        }
    }
}

/// Index of the first `c` in `s`.
pub fn find_char(s: &Vec<char>, c: char) -> (r: Option<usize>)
    ensures
        match r {
            Some(i) => first_index(s@, c) == i && i < s@.len(),
            None => first_index(s@, c) == -1 && !s@.contains(c),
        },
{
    for i in 0..s.len()
        invariant
            forall|k: int| 0 <= k < i ==> s@[k] != c,
    {
        if s[i] == c {
            proof {
                lemma_first_index(s@, c, i as int);
            }
            return Some(i);
        }
    }
    proof {
        lemma_first_index(s@, c, -1);
    }
    None
}

// ---------------------------------------------------------------------------
// Trimming
// ---------------------------------------------------------------------------

pub open spec fn trim_start(s: Seq<char>) -> Seq<char>
    decreases s.len(),
{
    if s.len() > 0 && is_ws(s[0]) {
        trim_start(s.drop_first())
    } else {
        s
    }
}

pub open spec fn trim_end(s: Seq<char>) -> Seq<char>
    decreases s.len(),
{
    if s.len() > 0 && is_ws(s.last()) {
        trim_end(s.drop_last())
    } else {
        s
    }
}

/// `str::trim`: `s` without its leading and trailing whitespace.
pub open spec fn trim(s: Seq<char>) -> Seq<char> {
    trim_end(trim_start(s))
}

/// `s` has no leading or trailing whitespace.
pub open spec fn is_trimmed(s: Seq<char>) -> bool {
    s.len() == 0 || (!is_ws(s[0]) && !is_ws(s.last()))
}

proof fn lemma_trim_start_shape(s: Seq<char>)
    ensures
        trim_start(s).len() == 0 || !is_ws(trim_start(s)[0]),
        trim_start(s).len() > 0 ==> trim_start(s).last() == s.last(),
    decreases s.len(),
{
    if s.len() > 0 && is_ws(s[0]) {
        lemma_trim_start_shape(s.drop_first());
    }
}

proof fn lemma_trim_end_shape(s: Seq<char>)
    ensures
        trim_end(s).len() == 0 || !is_ws(trim_end(s).last()),
        trim_end(s).len() > 0 ==> trim_end(s)[0] == s[0],
    decreases s.len(),
{
    if s.len() > 0 && is_ws(s.last()) {
        lemma_trim_end_shape(s.drop_last());
        if trim_end(s).len() > 0 {
            assert(s.drop_last()[0] == s[0]);
        }
    }
}

/// What `trim` gives has no leading or trailing whitespace.
pub proof fn lemma_trim_trimmed(s: Seq<char>)
    ensures
        is_trimmed(trim(s)),
{
    lemma_trim_start_shape(s);
    lemma_trim_end_shape(trim_start(s));
}

/// Trimming a text without leading or trailing whitespace leaves it alone.
pub proof fn lemma_trim_of_trimmed(s: Seq<char>)
    requires
        is_trimmed(s),
    ensures
        trim(s) == s,
{
}

/// Law: trimming twice is trimming once.
pub proof fn law_trim_idempotent(s: Seq<char>)
    ensures
        trim(trim(s)) == trim(s),
{
    lemma_trim_trimmed(s);
    lemma_trim_of_trimmed(trim(s));
}

/// Two texts without surrounding whitespace, one after the other, have none.
pub proof fn lemma_trimmed_concat(a: Seq<char>, b: Seq<char>)
    requires
        is_trimmed(a),
        is_trimmed(b),
    ensures
        is_trimmed(a + b),
{
    if a.len() == 0 {
        assert(a + b =~= b);
    } else if b.len() == 0 {
        assert(a + b =~= a);
    } else {
        assert((a + b)[0] == a[0]);
        assert((a + b).last() == b.last());
    }
}

proof fn lemma_trim_start_absent(s: Seq<char>, c: char)
    requires
        !s.contains(c),
    ensures
        !trim_start(s).contains(c),
    decreases s.len(),
{
    if s.len() > 0 && is_ws(s[0]) {
        assert(!s.drop_first().contains(c)) by {
            if s.drop_first().contains(c) {
                let j = choose|j: int| 0 <= j < s.drop_first().len() && s.drop_first()[j] == c;
                assert(s[j + 1] == c);
            }
        }
        lemma_trim_start_absent(s.drop_first(), c);
    }
}

proof fn lemma_trim_end_absent(s: Seq<char>, c: char)
    requires
        !s.contains(c),
    ensures
        !trim_end(s).contains(c),
    decreases s.len(),
{
    if s.len() > 0 && is_ws(s.last()) {
        assert(!s.drop_last().contains(c)) by {
            if s.drop_last().contains(c) {
                let j = choose|j: int| 0 <= j < s.drop_last().len() && s.drop_last()[j] == c;
                assert(s[j] == c);
            }
        }
        lemma_trim_end_absent(s.drop_last(), c);
    }
}

/// Trimming a text adds no character to it.
pub proof fn lemma_trim_keeps_absent(s: Seq<char>, c: char)
    requires
        !s.contains(c),
    ensures
        !trim(s).contains(c),
{
    lemma_trim_start_absent(s, c);
    lemma_trim_end_absent(trim_start(s), c);
}

/// `str::trim`.
pub fn trim_exec(s: &Vec<char>) -> (r: Vec<char>)
    ensures
        r@ == trim(s@),
{
    let mut a: usize = 0;
    assert(s@.skip(0) =~= s@);
    while a < s.len() && is_whitespace(s[a])
        invariant
            a <= s.len(),
            trim_start(s@) == trim_start(s@.skip(a as int)),
        decreases s.len() - a,
    {
        assert(s@.skip(a as int).drop_first() =~= s@.skip(a + 1));
        a = a + 1;
    }
    let mut b: usize = s.len();
    assert(s@.skip(a as int) =~= s@.subrange(a as int, b as int));
    while b > a && is_whitespace(s[b - 1])
        invariant
            a <= b <= s.len(),
            trim_start(s@) == s@.skip(a as int),
            trim(s@) == trim_end(s@.subrange(a as int, b as int)),
        decreases b - a,
    {
        assert(s@.subrange(a as int, b as int).drop_last() =~= s@.subrange(a as int, b - 1));
        b = b - 1;
    }
    let mut r: Vec<char> = Vec::new();
    let mut k: usize = a;
    while k < b
        invariant
            a <= k <= b <= s.len(),
            r@ == s@.subrange(a as int, k as int),
        decreases b - k,
    {
        r.push(s[k]);
        assert(s@.subrange(a as int, k + 1) =~= s@.subrange(a as int, k as int).push(s@[k as int]));
        k = k + 1;
    }
    r
}

// ---------------------------------------------------------------------------
// Replacing
// ---------------------------------------------------------------------------

/// `str::replace`: every match of `from`, taken left to right without
/// overlap, replaced by `to`. An empty `from` matches before every
/// character and at the end.
pub open spec fn replace_all<T>(s: Seq<T>, from: Seq<T>, to: Seq<T>) -> Seq<T>
    decreases s.len(),
{
    if from.len() == 0 {
        if s.len() == 0 {
            to
        } else {
            to + seq![s[0]] + replace_all(s.drop_first(), from, to)
        }
    } else if s.len() < from.len() {
        s
    } else if s.take(from.len() as int) == from {
        to + replace_all(s.skip(from.len() as int), from, to)
    } else {
        seq![s[0]] + replace_all(s.drop_first(), from, to)
    }
}

/// Whether index `j` of `replace_all(s, d, w)` is one where a `w` was
/// written in place of a `d`.
pub open spec fn written_at<T>(s: Seq<T>, d: Seq<T>, w: Seq<T>, j: int) -> bool
    decreases s.len(),
{
    if d.len() == 0 || s.len() < d.len() {
        false
    } else if s.take(d.len() as int) == d {
        j == 0 || written_at(s.skip(d.len() as int), d, w, j - w.len())
    } else {
        written_at(s.drop_first(), d, w, j - 1)
    }
}

proof fn lemma_written_at_nonnegative<T>(s: Seq<T>, d: Seq<T>, w: Seq<T>, j: int)
    requires
        written_at(s, d, w, j),
        w.len() > 0,
    ensures
        j >= 0,
    decreases s.len(),
{
    if s.take(d.len() as int) == d {
        if j != 0 {
            lemma_written_at_nonnegative(s.skip(d.len() as int), d, w, j - w.len());
        }
    } else {
        lemma_written_at_nonnegative(s.drop_first(), d, w, j - 1);
    }
}

proof fn lemma_no_occurrence_in_suffix<T>(s: Seq<T>, p: Seq<T>, k: int)
    requires
        0 <= k <= s.len(),
        !contains(s, p),
    ensures
        !contains(s.skip(k), p),
{
    if contains(s.skip(k), p) {
        let i = choose|i: int| occurs_at(s.skip(k), p, i);
        assert(s.subrange(i + k, i + k + p.len()) =~= s.skip(k).subrange(i, i + p.len()));
        assert(occurs_at(s, p, i + k));
    }
}

proof fn lemma_replace_without_occurrence<T>(s: Seq<T>, p: Seq<T>, d: Seq<T>)
    requires
        p.len() > 0,
        !contains(s, p),
    ensures
        replace_all(s, p, d) == s,
    decreases s.len(),
{
    if s.len() >= p.len() {
        assert(s.take(p.len() as int) =~= s.subrange(0, p.len() as int));
        assert(!occurs_at(s, p, 0));
        lemma_no_occurrence_in_suffix(s, p, 1);
        assert(s.skip(1) =~= s.drop_first());
        lemma_replace_without_occurrence(s.drop_first(), p, d);
        assert(seq![s[0]] + s.drop_first() =~= s);
    }
}

/// Law: replacing `d` by `w`, then `w` by `d`, gives the text back, when
/// every `w` of the first result stands where a `w` was written.
pub proof fn law_replace_back<T>(s: Seq<T>, d: Seq<T>, w: Seq<T>)
    requires
        d.len() > 0,
        w.len() > 0,
        forall|j: int| #[trigger] occurs_at(replace_all(s, d, w), w, j) ==> written_at(s, d, w, j),
    ensures
        replace_all(replace_all(s, d, w), w, d) == s,
    decreases s.len(),
{
    let r = replace_all(s, d, w);
    if s.len() < d.len() {
        assert(!contains(s, w)) by {
            if contains(s, w) {
                let j = choose|j: int| occurs_at(s, w, j);
                assert(occurs_at(r, w, j));
            }
        }
        lemma_replace_without_occurrence(s, w, d);
    } else if s.take(d.len() as int) == d {
        let rest = s.skip(d.len() as int);
        let x = replace_all(rest, d, w);
        assert(r == w + x);
        assert forall|j: int| #[trigger] occurs_at(x, w, j) implies written_at(rest, d, w, j) by {
            assert((w + x).subrange(j + w.len(), j + w.len() + w.len()) =~= x.subrange(
                j,
                j + w.len(),
            ));
            assert(occurs_at(r, w, j + w.len()));
        }
        law_replace_back(rest, d, w);
        assert((w + x).take(w.len() as int) =~= w);
        assert((w + x).skip(w.len() as int) =~= x);
        assert(d + rest =~= s);
    } else {
        let c = s.drop_first();
        let x = replace_all(c, d, w);
        assert(r == seq![s[0]] + x);
        assert forall|j: int| #[trigger] occurs_at(x, w, j) implies written_at(c, d, w, j) by {
            assert((seq![s[0]] + x).subrange(j + 1, j + 1 + w.len()) =~= x.subrange(
                j,
                j + w.len(),
            ));
            assert(occurs_at(r, w, j + 1));
        }
        law_replace_back(c, d, w);
        assert(seq![s[0]] + c =~= s);
        if r.len() >= w.len() {
            if r.take(w.len() as int) == w {
                assert(r.subrange(0, w.len() as int) =~= r.take(w.len() as int));
                assert(occurs_at(r, w, 0));
                lemma_written_at_nonnegative(c, d, w, -1);
            }
            assert(r[0] == s[0]);
            assert(r.drop_first() =~= x);
        } else {
            assert(!contains(x, w)) by {
                if contains(x, w) {
                    let i = choose|i: int| occurs_at(x, w, i);
                }
            }
            lemma_replace_without_occurrence(x, w, d);
        }
    }
}

/// Appends the characters of `t` to `out`.
pub fn push_all(out: &mut Vec<char>, t: &Vec<char>)
    ensures
        final(out)@ == old(out)@ + t@,
{
    let ghost start = out@;
    for i in 0..t.len()
        invariant
            out@ == start + t@.take(i as int),
    {
        out.push(t[i]);
        assert(t@.take(i + 1) =~= t@.take(i as int).push(t@[i as int]));
    }
    assert(t@.take(t.len() as int) =~= t@);
}

/// `str::replace`.
pub fn replace_exec(s: &Vec<char>, from: &Vec<char>, to: &Vec<char>) -> (r: Vec<char>)
    ensures
        r@ == replace_all(s@, from@, to@),
{
    let mut out: Vec<char> = Vec::new();
    let mut i: usize = 0;
    assert(s@.skip(0) =~= s@);
    if from.len() == 0 {
        while i < s.len()
            invariant
                i <= s.len(),
                from@.len() == 0,
                out@ + replace_all(s@.skip(i as int), from@, to@) == replace_all(s@, from@, to@),
            decreases s.len() - i,
        {
            let ghost rest = s@.skip(i as int);
            let ghost old_out = out@;
            assert(rest.drop_first() =~= s@.skip(i + 1));
            assert(rest[0] == s@[i as int]);
            push_all(&mut out, to);
            out.push(s[i]);
            assert(old_out + replace_all(rest, from@, to@) =~= out@ + replace_all(
                s@.skip(i + 1),
                from@,
                to@,
            ));
            i = i + 1;
        }
        assert(s@.skip(i as int) =~= Seq::<char>::empty());
        push_all(&mut out, to);
        return out;
    }
    while i < s.len()
        invariant
            i <= s.len(),
            from@.len() > 0,
            out@ + replace_all(s@.skip(i as int), from@, to@) == replace_all(s@, from@, to@),
        decreases s.len() - i,
    {
        let ghost rest = s@.skip(i as int);
        let ghost old_out = out@;
        if from.len() > s.len() - i {
            assert(replace_all(rest, from@, to@) == rest);
            while i < s.len()
                invariant
                    i <= s.len(),
                    out@ + s@.skip(i as int) == replace_all(s@, from@, to@),
                decreases s.len() - i,
            {
                let ghost o = out@;
                out.push(s[i]);
                assert(o + s@.skip(i as int) =~= out@ + s@.skip(i + 1));
                i = i + 1;
            }
            assert(out@ + s@.skip(i as int) =~= out@);
            return out;
        }
        if occurs_at_exec(s, from, i) {
            assert(rest.take(from@.len() as int) =~= s@.subrange(i as int, i + from@.len()));
            assert(rest.skip(from@.len() as int) =~= s@.skip(i + from@.len()));
            push_all(&mut out, to);
            assert(old_out + replace_all(rest, from@, to@) =~= out@ + replace_all(
                s@.skip(i + from@.len()),
                from@,
                to@,
            ));
            i = i + from.len();
        } else {
            assert(rest.take(from@.len() as int) =~= s@.subrange(i as int, i + from@.len()));
            assert(rest.drop_first() =~= s@.skip(i + 1));
            assert(rest[0] == s@[i as int]);
            out.push(s[i]);
            assert(old_out + replace_all(rest, from@, to@) =~= out@ + replace_all(
                s@.skip(i + 1),
                from@,
                to@,
            ));
            i = i + 1;
        }
    }
    assert(s@.skip(i as int) =~= Seq::<char>::empty());
    assert(replace_all(Seq::<char>::empty(), from@, to@) == Seq::<char>::empty());
    assert(out@ + Seq::<char>::empty() =~= out@);
    out
}

// ---------------------------------------------------------------------------
// Lines
// ---------------------------------------------------------------------------

/// The character sequences held by a sequence of character vectors.
pub open spec fn views(v: Seq<Vec<char>>) -> Seq<Seq<char>> {
    Seq::new(v.len(), |i: int| v[i]@)
}

/// `l` without one trailing carriage return.
pub open spec fn strip_cr(l: Seq<char>) -> Seq<char> {
    if l.len() > 0 && l.last() == '\r' {
        l.drop_last()
    } else {
        l
    }
}

/// Reading `s` from the left: the lines ended by a `'\n'` so far (each
/// without the `'\n'` and without a `'\r'` just before it), and the
/// characters read since the last `'\n'`.
pub open spec fn scan_lines(s: Seq<char>) -> (Seq<Seq<char>>, Seq<char>)
    decreases s.len(),
{
    if s.len() == 0 {
        (seq![], seq![])
    } else {
        let (done, cur) = scan_lines(s.drop_last());
        if s.last() == '\n' {
            (done.push(strip_cr(cur)), seq![])
        } else {
            (done, cur.push(s.last()))
        }
    }
}

/// `str::lines`: the lines of `s`, split at `'\n'` or `"\r\n"`, without their
/// terminators; a final terminator is optional.
pub open spec fn lines(s: Seq<char>) -> Seq<Seq<char>> {
    let (done, cur) = scan_lines(s);
    if cur.len() == 0 {
        done
    } else {
        done.push(cur)
    }
}

/// `str::lines`.
pub fn lines_of(s: &Vec<char>) -> (r: Vec<Vec<char>>)
    ensures
        views(r@) == lines(s@),
{
    let mut done: Vec<Vec<char>> = Vec::new();
    let mut cur: Vec<char> = Vec::new();
    for i in 0..s.len()
        invariant
            (views(done@), cur@) == scan_lines(s@.take(i as int)),
    {
        let c = s[i];
        assert(s@.take(i + 1).drop_last() =~= s@.take(i as int));
        if c == '\n' {
            if cur.len() > 0 && cur[cur.len() - 1] == '\r' {
                cur.pop();
            }
            let ghost old_done = views(done@);
            let line = cur;
            done.push(line);
            cur = Vec::new();
            assert(views(done@) =~= old_done.push(line@));
        } else {
            cur.push(c);
        }
    }
    assert(s@.take(s.len() as int) =~= s@);
    if cur.len() > 0 {
        let ghost old_done = views(done@);
        let line = cur;
        done.push(line);
        assert(views(done@) =~= old_done.push(line@));
    }
    done
}

/// Each line of `ls` followed by `'\n'`.
pub open spec fn join_lines(ls: Seq<Seq<char>>) -> Seq<char>
    decreases ls.len(),
{
    if ls.len() == 0 {
        seq![]
    } else {
        ls[0].push('\n') + join_lines(ls.drop_first())
    }
}

/// A line that `str::lines` gives back unchanged once it is ended by `'\n'`.
pub open spec fn plain_line(l: Seq<char>) -> bool {
    !l.contains('\n') && !(l.len() > 0 && l.last() == '\r')
}

/// Reading characters without `'\n'` only extends the current line.
pub proof fn lemma_scan_append_plain(x: Seq<char>, y: Seq<char>)
    requires
        !y.contains('\n'),
    ensures
        scan_lines(x + y) == (scan_lines(x).0, scan_lines(x).1 + y),
    decreases y.len(),
{
    if y.len() == 0 {
        assert(x + y =~= x);
        assert(scan_lines(x).1 + y =~= scan_lines(x).1);
    } else {
        let y0 = y.drop_last();
        assert(!y0.contains('\n')) by {
            if y0.contains('\n') {
                let j = choose|j: int| 0 <= j < y0.len() && y0[j] == '\n';
                assert(y[j] == '\n');
            }
        }
        lemma_scan_append_plain(x, y0);
        assert((x + y).drop_last() =~= x + y0);
        assert((x + y).last() == y.last());
        assert(y.last() != '\n') by {
            assert(y[y.len() - 1] == y.last());
        }
        assert(scan_lines(x).1 + y0 + seq![y.last()] =~= scan_lines(x).1 + y);
    }
}

pub proof fn lemma_join_last(ls: Seq<Seq<char>>)
    requires
        ls.len() > 0,
    ensures
        join_lines(ls) == join_lines(ls.drop_last()) + ls.last().push('\n'),
    decreases ls.len(),
{
    if ls.len() == 1 {
        assert(ls.drop_last() =~= Seq::<Seq<char>>::empty());
        assert(ls.drop_first() =~= Seq::<Seq<char>>::empty());
        assert(join_lines(ls.drop_first()) == Seq::<char>::empty());
        assert(join_lines(ls.drop_last()) == Seq::<char>::empty());
        assert(join_lines(ls) =~= ls[0].push('\n') + Seq::<char>::empty());
        assert(join_lines(ls.drop_last()) + ls.last().push('\n') =~= Seq::<char>::empty()
            + ls.last().push('\n'));
    } else {
        lemma_join_last(ls.drop_first());
        assert(ls.drop_first().drop_last() =~= ls.drop_last().drop_first());
        assert(ls.drop_last()[0] == ls[0]);
        assert(ls.drop_first().last() == ls.last());
    }
}

/// Lines ended by `'\n'` read back as the same lines.
pub proof fn lemma_lines_of_join(ls: Seq<Seq<char>>)
    requires
        forall|i: int| 0 <= i < ls.len() ==> plain_line(#[trigger] ls[i]),
    ensures
        scan_lines(join_lines(ls)) == (ls, Seq::<char>::empty()),
        lines(join_lines(ls)) == ls,
    decreases ls.len(),
{
    if ls.len() == 0 {
    } else {
        let init = ls.drop_last();
        let l = ls.last();
        assert(plain_line(ls[ls.len() - 1]));
        lemma_lines_of_join(init);
        lemma_join_last(ls);
        let x = join_lines(init);
        lemma_scan_append_plain(x, l);
        assert(Seq::<char>::empty() + l =~= l);
        assert((x + l).push('\n') =~= x + l.push('\n'));
        assert((x + l.push('\n')).drop_last() =~= x + l);
        assert(strip_cr(l) == l);
        assert(init.push(l) =~= ls);
    }
}

/// `str::lines` never gives a line holding `'\n'`.
pub proof fn lemma_lines_have_no_newline(s: Seq<char>)
    ensures
        forall|i: int| 0 <= i < lines(s).len() ==> !(#[trigger] lines(s)[i]).contains('\n'),
        forall|i: int| 0 <= i < scan_lines(s).0.len() ==> !(#[trigger] scan_lines(s).0[i]).contains('\n'),
        !scan_lines(s).1.contains('\n'),
    decreases s.len(),
{
    if s.len() > 0 {
        lemma_lines_have_no_newline(s.drop_last());
        let (d, c) = scan_lines(s.drop_last());
        if s.last() == '\n' {
            let sc = strip_cr(c);
            assert(!sc.contains('\n')) by {
                if sc.contains('\n') {
                    let j = choose|j: int| 0 <= j < sc.len() && sc[j] == '\n';
                    assert(c[j] == '\n');
                }
            }
            assert forall|i: int| 0 <= i < d.push(sc).len() implies !(#[trigger] d.push(sc)[i]).contains('\n') by {
                if i < d.len() {
                    assert(d.push(sc)[i] == d[i]);
                }
            }
            assert(!Seq::<char>::empty().contains('\n'));
        } else {
            let c2 = c.push(s.last());
            assert(!c2.contains('\n')) by {
                if c2.contains('\n') {
                    let j = choose|j: int| 0 <= j < c2.len() && c2[j] == '\n';
                    if j < c.len() {
                        assert(c[j] == '\n');
                    }
                }
            }
        }
        let (d2, c2) = scan_lines(s);
        assert forall|i: int| 0 <= i < lines(s).len() implies !(#[trigger] lines(s)[i]).contains('\n') by {
            if c2.len() > 0 && i == d2.len() {
                assert(lines(s)[i] == c2);
            } else {
                assert(lines(s)[i] == d2[i]);
            }
        }
    }
}

// ---------------------------------------------------------------------------
// Lines with their line breaks
// ---------------------------------------------------------------------------

/// `s` cut into its lines, each with the line break that follows it in `s`
/// (`"\n"`, `"\r\n"`, or nothing after the last line).
pub open spec fn line_parts(s: Seq<char>) -> Seq<(Seq<char>, Seq<char>)>
    decreases s.len(),
{
    if s.len() == 0 {
        seq![]
    } else {
        let k = first_index(s, '\n');
        if k < 0 {
            seq![(s, Seq::<char>::empty())]
        } else {
            proof {
                lemma_first_index_facts(s, '\n');
            }
            let l = strip_cr(s.take(k));
            seq![(l, s.subrange(l.len() as int, k + 1))] + line_parts(s.skip(k + 1))
        }
    }
}

/// Each line of `ps` followed by its line break.
pub open spec fn rejoin(ps: Seq<(Seq<char>, Seq<char>)>) -> Seq<char>
    decreases ps.len(),
{
    if ps.len() == 0 {
        seq![]
    } else {
        ps[0].0 + ps[0].1 + rejoin(ps.drop_first())
    }
}

/// Reading a text that ends a line, then more text.
pub proof fn lemma_scan_concat(p: Seq<char>, q: Seq<char>)
    requires
        scan_lines(p).1.len() == 0,
    ensures
        scan_lines(p + q) == (scan_lines(p).0 + scan_lines(q).0, scan_lines(q).1),
    decreases q.len(),
{
    if q.len() == 0 {
        assert(p + q =~= p);
        assert(scan_lines(p).0 + Seq::<Seq<char>>::empty() =~= scan_lines(p).0);
        assert(scan_lines(p).1 =~= Seq::<char>::empty());
    } else {
        lemma_scan_concat(p, q.drop_last());
        assert((p + q).drop_last() =~= p + q.drop_last());
        assert((p + q).last() == q.last());
        let (d, c) = scan_lines(q.drop_last());
        if q.last() == '\n' {
            assert((scan_lines(p).0 + d).push(strip_cr(c)) =~= scan_lines(p).0 + d.push(
                strip_cr(c),
            ));
        }
    }
}

/// A line ended by `'\n'` and then more text: the line (without a carriage
/// return before the break) comes first.
pub proof fn lemma_lines_piece(a: Seq<char>, rest: Seq<char>)
    requires
        !a.contains('\n'),
    ensures
        lines(a.push('\n') + rest) == seq![strip_cr(a)] + lines(rest),
{
    lemma_scan_append_plain(Seq::<char>::empty(), a);
    assert(Seq::<char>::empty() + a =~= a);
    assert(a.push('\n').drop_last() =~= a);
    assert(scan_lines(a.push('\n')) == (seq![strip_cr(a)], Seq::<char>::empty())) by {
        assert(Seq::<Seq<char>>::empty().push(strip_cr(a)) =~= seq![strip_cr(a)]);
    }
    lemma_scan_concat(a.push('\n'), rest);
    let (d, c) = scan_lines(rest);
    assert((seq![strip_cr(a)] + d).push(c) =~= seq![strip_cr(a)] + d.push(c));
}

/// A last line without a line break is one line.
pub proof fn lemma_lines_single(a: Seq<char>)
    requires
        !a.contains('\n'),
        a.len() > 0,
    ensures
        lines(a) == seq![a],
{
    lemma_scan_append_plain(Seq::<char>::empty(), a);
    assert(Seq::<char>::empty() + a =~= a);
    assert(Seq::<Seq<char>>::empty().push(a) =~= seq![a]);
}

/// The first line of `s`, with its line break, and the rest of `s`.
pub proof fn lemma_first_part(s: Seq<char>)
    requires
        s.len() > 0,
    ensures
        first_index(s, '\n') < 0 ==> !s.contains('\n') && lines(s) == seq![s],
        first_index(s, '\n') >= 0 ==> ({
            let k = first_index(s, '\n');
            let a = s.take(k);
            &&& 0 <= k < s.len()
            &&& !a.contains('\n')
            &&& s == a.push('\n') + s.skip(k + 1)
            &&& strip_cr(a) + s.subrange(strip_cr(a).len() as int, k + 1) == a.push('\n')
            &&& lines(s) == seq![strip_cr(a)] + lines(s.skip(k + 1))
        }),
{
    lemma_first_index_facts(s, '\n');
    let k = first_index(s, '\n');
    if k < 0 {
        lemma_lines_single(s);
    } else {
        let a = s.take(k);
        assert(!a.contains('\n')) by {
            if a.contains('\n') {
                let j = choose|j: int| 0 <= j < a.len() && a[j] == '\n';
                assert(s[j] == '\n');
            }
        }
        assert(s =~= a.push('\n') + s.skip(k + 1));
        assert(strip_cr(a) + s.subrange(strip_cr(a).len() as int, k + 1) =~= a.push('\n'));
        lemma_lines_piece(a, s.skip(k + 1));
    }
}

/// The lines of `line_parts(s)` are `lines(s)`, and with their line breaks
/// they give `s` back.
pub proof fn lemma_line_parts(s: Seq<char>)
    ensures
        line_parts(s).len() == lines(s).len(),
        forall|i: int| 0 <= i < lines(s).len() ==> #[trigger] line_parts(s)[i].0 == lines(s)[i],
        rejoin(line_parts(s)) == s,
    decreases s.len(),
{
    if s.len() > 0 {
        lemma_first_part(s);
        let k = first_index(s, '\n');
        if k < 0 {
            let ps = line_parts(s);
            assert(ps.drop_first() =~= Seq::<(Seq<char>, Seq<char>)>::empty());
            assert(rejoin(ps) == ps[0].0 + ps[0].1 + rejoin(ps.drop_first()));
            assert(s + Seq::<char>::empty() + Seq::<char>::empty() =~= s);
        } else {
            let rest = s.skip(k + 1);
            lemma_line_parts(rest);
            let a = s.take(k);
            let head = (strip_cr(a), s.subrange(strip_cr(a).len() as int, k + 1));
            let ps = line_parts(s);
            assert(ps == seq![head] + line_parts(rest));
            assert(ps.drop_first() =~= line_parts(rest));
            assert forall|i: int| 0 <= i < lines(s).len() implies #[trigger] line_parts(s)[i].0
                == lines(s)[i] by {
                if i > 0 {
                    assert(ps[i] == line_parts(rest)[i - 1]);
                    assert(lines(s)[i] == lines(rest)[i - 1]);
                }
            }
            assert(head.0 + head.1 + rejoin(line_parts(rest)) =~= s);
        }
    }
}

/// What follows the first `n` lines of `s` (with their line breaks) is cut
/// into the remaining lines.
pub proof fn lemma_parts_skip(s: Seq<char>, n: int)
    requires
        0 <= n <= line_parts(s).len(),
    ensures
        rejoin(line_parts(s).take(n)) + s.skip(rejoin(line_parts(s).take(n)).len() as int) == s,
        line_parts(s.skip(rejoin(line_parts(s).take(n)).len() as int)) == line_parts(s).skip(n),
    decreases s.len(),
{
    let ps = line_parts(s);
    if n == 0 {
        assert(ps.take(0) =~= Seq::<(Seq<char>, Seq<char>)>::empty());
        assert(s.skip(0) =~= s);
        assert(ps.skip(0) =~= ps);
        assert(Seq::<char>::empty() + s =~= s);
    } else {
        lemma_first_part(s);
        let k = first_index(s, '\n');
        if k < 0 {
            assert(ps == seq![(s, Seq::<char>::empty())]);
            assert(ps.take(1) =~= ps);
            assert(ps.drop_first() =~= Seq::<(Seq<char>, Seq<char>)>::empty());
            assert(rejoin(ps) == s + Seq::<char>::empty() + rejoin(ps.drop_first()));
            assert(rejoin(ps) =~= s);
            assert(s.skip(s.len() as int) =~= Seq::<char>::empty());
            assert(ps.skip(1) =~= Seq::<(Seq<char>, Seq<char>)>::empty());
            assert(s + Seq::<char>::empty() =~= s);
        } else {
            let a = s.take(k);
            let rest = s.skip(k + 1);
            let head = (strip_cr(a), s.subrange(strip_cr(a).len() as int, k + 1));
            assert(ps == seq![head] + line_parts(rest));
            lemma_parts_skip(rest, n - 1);
            let pr = line_parts(rest);
            assert(ps.take(n)[0] == head);
            assert(ps.take(n).drop_first() =~= pr.take(n - 1));
            assert(head.0 + head.1 == a.push('\n'));
            let r1 = rejoin(pr.take(n - 1));
            assert(rejoin(ps.take(n)) == head.0 + head.1 + r1);
            assert(rejoin(ps.take(n)).len() == k + 1 + r1.len());
            assert(s.skip(rejoin(ps.take(n)).len() as int) =~= rest.skip(r1.len() as int));
            assert(ps.skip(n) =~= pr.skip(n - 1));
            assert(a.push('\n') + (r1 + rest.skip(r1.len() as int)) =~= a.push('\n') + rest);
        }
    }
}

/// The characters `from..to` of `s`.
pub fn slice_chars(s: &Vec<char>, from: usize, to: usize) -> (r: Vec<char>)
    requires
        from <= to <= s.len(),
    ensures
        r@ == s@.subrange(from as int, to as int),
{
    let mut r: Vec<char> = Vec::new();
    let mut k: usize = from;
    while k < to
        invariant
            from <= k <= to <= s.len(),
            r@ == s@.subrange(from as int, k as int),
        decreases to - k,
    {
        r.push(s[k]);
        assert(s@.subrange(from as int, k + 1) =~= s@.subrange(from as int, k as int).push(
            s@[k as int],
        ));
        k = k + 1;
    }
    r
}

/// The lines of `s` and their line breaks.
pub fn parts_of(s: &Vec<char>) -> (r: (Vec<Vec<char>>, Vec<Vec<char>>))
    ensures
        r.0.len() == line_parts(s@).len(),
        r.1.len() == line_parts(s@).len(),
        forall|i: int|
            0 <= i < line_parts(s@).len() ==> (#[trigger] line_parts(s@)[i]) == (
                r.0@[i]@,
                r.1@[i]@,
            ),
        views(r.0@) == lines(s@),
{
    let mut ls: Vec<Vec<char>> = Vec::new();
    let mut ts: Vec<Vec<char>> = Vec::new();
    let mut i: usize = 0;
    let ghost all = line_parts(s@);
    assert(s@.skip(0) =~= s@);
    while i < s.len()
        invariant
            i <= s.len(),
            ls.len() == ts.len(),
            all == line_parts(s@),
            all == Seq::new(ls.len() as nat, |k: int| (ls@[k]@, ts@[k]@)) + line_parts(
                s@.skip(i as int),
            ),
        decreases s.len() - i,
    {
        let ghost rest = s@.skip(i as int);
        let ghost before = Seq::new(ls.len() as nat, |k: int| (ls@[k]@, ts@[k]@));
        let mut j: usize = i;
        while j < s.len() && s[j] != '\n'
            invariant
                i <= j <= s.len(),
                rest == s@.skip(i as int),
                forall|k: int| i <= k < j ==> s@[k] != '\n',
            decreases s.len() - j,
        {
            j = j + 1;
        }
        if j == s.len() {
            proof {
                lemma_first_index(rest, '\n', -1);
            }
            ls.push(slice_chars(s, i, j));
            ts.push(Vec::new());
            assert(s@.subrange(i as int, j as int) =~= rest);
            assert(s@.skip(j as int) =~= Seq::<char>::empty());
            assert(Seq::new(ls.len() as nat, |k: int| (ls@[k]@, ts@[k]@)) =~= before + seq![
                (rest, Seq::<char>::empty()),
            ]);
            assert(all =~= Seq::new(ls.len() as nat, |k: int| (ls@[k]@, ts@[k]@)) + line_parts(
                s@.skip(j as int),
            ));
            i = j;
        } else {
            proof {
                lemma_first_index(rest, '\n', j - i);
            }
            let mut end: usize = j;
            if j > i && s[j - 1] == '\r' {
                end = j - 1;
            }
            let ghost a = rest.take(j - i);
            assert(a =~= s@.subrange(i as int, j as int));
            assert(strip_cr(a) =~= s@.subrange(i as int, end as int));
            assert(rest.subrange(strip_cr(a).len() as int, j - i + 1) =~= s@.subrange(
                end as int,
                j + 1,
            ));
            assert(rest.skip(j - i + 1) =~= s@.skip(j + 1));
            ls.push(slice_chars(s, i, end));
            ts.push(slice_chars(s, end, j + 1));
            assert(Seq::new(ls.len() as nat, |k: int| (ls@[k]@, ts@[k]@)) =~= before + seq![
                (strip_cr(a), rest.subrange(strip_cr(a).len() as int, j - i + 1)),
            ]);
            assert(all =~= Seq::new(ls.len() as nat, |k: int| (ls@[k]@, ts@[k]@)) + line_parts(
                s@.skip(j + 1),
            ));
            i = j + 1;
        }
    }
    assert(s@.skip(i as int) =~= Seq::<char>::empty());
    assert(all =~= Seq::new(ls.len() as nat, |k: int| (ls@[k]@, ts@[k]@)));
    proof {
        lemma_line_parts(s@);
        assert forall|k: int| 0 <= k < lines(s@).len() implies views(ls@)[k] == lines(s@)[k] by {
            assert(all[k] == (ls@[k]@, ts@[k]@));
            assert(line_parts(s@)[k].0 == lines(s@)[k]);
        }
        assert(views(ls@) =~= lines(s@));
    }
    (ls, ts)
}

} // verus!
