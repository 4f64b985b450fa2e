//! IPXScript to PXScript: unrolling `loop N { .. }` blocks and expanding
//! `$name=value;` macros.
use vstd::prelude::*;

use crate::error::{ScriptError, ScriptErrorModel};
use crate::experimental::FIBER_STD;
use crate::utils::{erase_comment_lines_chars, spec_erase_comment_lines};
use crate::fiber_structs::{
    loop_models, macro_models, raised_models, FLoop, FMacro, LoopModel, MacroModel, RaisedCount,
};
use crate::numbers::{parse_u8, u8_text};
use crate::text::{
    at_least_bytes, boundary_at, byte_len, char_width, chars_of, ends_with, ends_with_exec,
    find_char, first_index, has_char, is_boundary, is_trimmed, lemma_first_index_facts,
    lemma_first_part, lemma_line_parts, lemma_parts_skip, lemma_lines_have_no_newline, lemma_lines_piece,
    lemma_trim_keeps_absent, lemma_trim_trimmed, lemma_trimmed_concat, line_parts, lines,
    lines_of, parts_of, push_all, rejoin, replace_all, replace_exec, skip_chars, starts_with,
    strip_cr, string_of, take_chars, trim, trim_exec, utf8_width, views,
};

verus! {

// ---------------------------------------------------------------------------
// Loops: what they are
// ---------------------------------------------------------------------------

pub open spec fn loop_keyword() -> Seq<char> {
    seq!['l', 'o', 'o', 'p']
}

pub open spec fn body_begin() -> Seq<char> {
    seq!['{']
}

pub open spec fn body_end() -> Seq<char> {
    seq!['}']
}

/// A line that opens a loop: at least six bytes long and starting with `loop`.
pub open spec fn is_loop_header(line: Seq<char>) -> bool {
    byte_len(line) >= 6 && starts_with(line, loop_keyword())
}

/// Reading a line as a possible loop header slices it at byte 4, and, when
/// it starts with `loop`, at byte 5; both must fall between characters.
pub open spec fn header_sliceable(line: Seq<char>) -> bool {
    byte_len(line) >= 6 ==> {
        &&& is_boundary(line, 4)
        &&& starts_with(line, loop_keyword()) ==> line.len() > 4 && utf8_width(line[4]) == 1
    }
}


/// Loops run at least twice.
pub open spec fn iteration_count(v: u8) -> u8 {
    if v < 2 {
        2
    } else {
        v
    }
}

/// `k` copies of `s`, one after the other.
pub open spec fn repeat(s: Seq<char>, k: nat) -> Seq<char>
    decreases k,
{
    if k == 0 {
        seq![]
    } else {
        repeat(s, (k - 1) as nat) + s
    }
}

/// Index of the first line of `ls` equal to `target` at or after `from`, or -1.
pub open spec fn find_line(ls: Seq<Seq<char>>, target: Seq<char>, from: int) -> int
    decreases ls.len() - from,
{
    if from < 0 || from >= ls.len() {
        -1
    } else if ls[from] == target {
        from
    } else {
        find_line(ls, target, from + 1)
    }
}

pub proof fn lemma_find_line(ls: Seq<Seq<char>>, target: Seq<char>, from: int)
    requires
        0 <= from,
    ensures
        -1 <= find_line(ls, target, from) < ls.len(),
        find_line(ls, target, from) >= 0 ==> from <= find_line(ls, target, from) && ls[find_line(
            ls,
            target,
            from,
        )] == target,
        forall|k: int|
            from <= k < ls.len() && (find_line(ls, target, from) < 0 || k < find_line(
                ls,
                target,
                from,
            )) ==> ls[k] != target,
    decreases ls.len() - from,
{
    if from < ls.len() && ls[from] != target {
        lemma_find_line(ls, target, from + 1);
    }
}

/// The body of a loop: its lines other than `{` and `}`, each trimmed, one
/// after the other.
pub open spec fn body_text(ls: Seq<Seq<char>>) -> Seq<char>
    decreases ls.len(),
{
    if ls.len() == 0 {
        seq![]
    } else {
        (if ls[0] == body_begin() || ls[0] == body_end() {
            seq![]
        } else {
            trim(ls[0])
        }) + body_text(ls.drop_first())
    }
}

/// The loop block that line `i` opens, with the index of its closing line;
/// `None` when line `i` opens no block; or why it is refused. A block is a
/// header and the lines below it down to the first `}` line; some line below
/// the header must be `{`. A header on the last line opens none.
pub open spec fn block_at(ls: Seq<Seq<char>>, i: int) -> Result<
    Option<(LoopModel, int)>,
    ScriptErrorModel,
> {
    let line = ls[i];
    if !is_loop_header(line) {
        Ok(None)
    } else {
        match u8_text(line.skip(5)) {
            None => Err(ScriptErrorModel::InvalidIterationCount { line }),
            Some(v) => {
                if i + 1 >= ls.len() {
                    Ok(None)
                } else if find_line(ls, body_begin(), i + 1) < 0 {
                    Err(ScriptErrorModel::MissingBodyStart { line })
                } else {
                    let e = find_line(ls, body_end(), i + 1);
                    if e < 0 {
                        Err(ScriptErrorModel::MissingBodyEnd { line })
                    } else {
                        let body = body_text(ls.subrange(i + 1, e));
                        let it = iteration_count(v);
                        Ok(
                            Some(
                                (
                                    LoopModel {
                                        code_to_loop: body,
                                        iterations: it,
                                        px_code: repeat(body, it as nat),
                                    },
                                    e,
                                ),
                            ),
                        )
                    }
                }
            },
        }
    }
}

/// A block ends on a later line.
pub proof fn lemma_block_end(ls: Seq<Seq<char>>, i: int)
    requires
        0 <= i < ls.len(),
    ensures
        block_at(ls, i) matches Ok(Some((_, e))) ==> i < e < ls.len(),
{
    if i + 1 < ls.len() {
        lemma_find_line(ls, body_end(), i + 1);
    }
}

/// Some line before line `i` is refused.
pub open spec fn refused_before(ls: Seq<Seq<char>>, i: int) -> bool {
    exists|j: int| 0 <= j < i && #[trigger] block_at(ls, j) is Err
}

/// Every line that is read as a possible loop header, that is each line up
/// to the first refused one, can be sliced as one.
pub open spec fn lines_readable(ls: Seq<Seq<char>>) -> bool {
    forall|i: int|
        0 <= i < ls.len() && !refused_before(ls, i) ==> #[trigger] header_sliceable(ls[i])
}

/// Every line of `code` read as a possible loop header can be sliced as one.
pub open spec fn script_sliceable(code: Seq<char>) -> bool {
    lines_readable(lines(code))
}

/// The loops that lines `i..` of `ls` open, one per header line, in order;
/// or the first refusal.
pub open spec fn loops_from(ls: Seq<Seq<char>>, i: int) -> Result<Seq<LoopModel>, ScriptErrorModel>
    decreases ls.len() - i,
{
    if i < 0 || i >= ls.len() {
        Ok(seq![])
    } else {
        match block_at(ls, i) {
            Err(e) => Err(e),
            Ok(None) => loops_from(ls, i + 1),
            Ok(Some((m, _))) => match loops_from(ls, i + 1) {
                Ok(ms) => Ok(seq![m] + ms),
                Err(e) => Err(e),
            },
        }
    }
}

/// The loops of a script, one per header line, in order; or the first refusal.
pub open spec fn spec_get_loops(code: Seq<char>) -> Result<Seq<LoopModel>, ScriptErrorModel> {
    loops_from(lines(code), 0)
}

/// Lines `i..` of `ls`, each followed by its line break from `ts`, with each
/// loop block (from its header to its `}` line) replaced by its unrolled body.
pub open spec fn unrolled_text(ls: Seq<Seq<char>>, ts: Seq<Seq<char>>, i: int) -> Seq<char>
    decreases ls.len() - i,
{
    if i < 0 || i >= ls.len() {
        seq![]
    } else {
        match block_at(ls, i) {
            Ok(Some((m, e))) => {
                proof {
                    lemma_block_end(ls, i);
                }
                m.px_code + ts[e] + unrolled_text(ls, ts, e + 1)
            },
            _ => ls[i] + ts[i] + unrolled_text(ls, ts, i + 1),
        }
    }
}

/// The line breaks of `s`, line by line.
pub open spec fn line_breaks(s: Seq<char>) -> Seq<Seq<char>> {
    Seq::new(line_parts(s).len(), |i: int| line_parts(s)[i].1)
}

/// The leftover that unrolling clears: a line break followed by `}`.
pub open spec fn junk() -> Seq<char> {
    seq!['\n', '}']
}

/// A script with each loop block replaced by its unrolled body and then
/// every line break followed by `}` removed; or the first refusal.
pub open spec fn spec_use_loops(code: Seq<char>) -> Result<Seq<char>, ScriptErrorModel> {
    match spec_get_loops(code) {
        Err(e) => Err(e),
        Ok(_) => Ok(
            replace_all(unrolled_text(lines(code), line_breaks(code), 0), junk(), seq![]),
        ),
    }
}

/// The loop headers of lines `i..` whose count was below 2 and so was
/// raised, with that count, up to the first refusal.
pub open spec fn raised_from(ls: Seq<Seq<char>>, i: int) -> Seq<(Seq<char>, u8)>
    decreases ls.len() - i,
{
    if i < 0 || i >= ls.len() {
        seq![]
    } else {
        let here: Seq<(Seq<char>, u8)> = match u8_text(ls[i].skip(5)) {
            Some(v) => if is_loop_header(ls[i]) && v < 2 {
                seq![(ls[i], v)]
            } else {
                seq![]
            },
            None => seq![],
        };
        match block_at(ls, i) {
            Err(_) => here,
            _ => here + raised_from(ls, i + 1),
        }
    }
}

/// Once the loops of lines `i..` are found, none of those lines is refused.
proof fn lemma_loops_found_none_refused(ls: Seq<Seq<char>>, i: int)
    requires
        0 <= i,
        loops_from(ls, i) is Ok,
    ensures
        forall|j: int| i <= j < ls.len() ==> !(#[trigger] block_at(ls, j) is Err),
    decreases ls.len() - i,
{
    if i < ls.len() {
        lemma_loops_found_none_refused(ls, i + 1);
    }
}

// ---------------------------------------------------------------------------
// Loops: what every loop found satisfies
// ---------------------------------------------------------------------------

/// A loop runs at least twice, its body has no surrounding whitespace and no
/// line break, and its unrolled text is the body written `iterations` times.
pub open spec fn well_unrolled(m: LoopModel) -> bool {
    &&& m.iterations >= 2
    &&& is_trimmed(m.code_to_loop)
    &&& !m.code_to_loop.contains('\n')
    &&& m.px_code == repeat(m.code_to_loop, m.iterations as nat)
}

proof fn lemma_no_newline_concat(a: Seq<char>, b: Seq<char>)
    requires
        !a.contains('\n'),
        !b.contains('\n'),
    ensures
        !(a + b).contains('\n'),
{
    if (a + b).contains('\n') {
        let j = choose|j: int| 0 <= j < (a + b).len() && (a + b)[j] == '\n';
        if j < a.len() {
            assert(a[j] == '\n');
        } else {
            assert(b[j - a.len()] == '\n');
        }
    }
}

proof fn lemma_body_text_shape(ls: Seq<Seq<char>>)
    requires
        forall|k: int| 0 <= k < ls.len() ==> !(#[trigger] ls[k]).contains('\n'),
    ensures
        is_trimmed(body_text(ls)),
        !body_text(ls).contains('\n'),
    decreases ls.len(),
{
    if ls.len() > 0 {
        assert forall|k: int| 0 <= k < ls.drop_first().len() implies !(
        #[trigger] ls.drop_first()[k]).contains('\n') by {
            assert(ls.drop_first()[k] == ls[k + 1]);
        }
        lemma_body_text_shape(ls.drop_first());
        let head = if ls[0] == body_begin() || ls[0] == body_end() {
            Seq::<char>::empty()
        } else {
            trim(ls[0])
        };
        assert(!ls[0].contains('\n'));
        lemma_trim_trimmed(ls[0]);
        lemma_trim_keeps_absent(ls[0], '\n');
        assert(!Seq::<char>::empty().contains('\n'));
        lemma_trimmed_concat(head, body_text(ls.drop_first()));
        lemma_no_newline_concat(head, body_text(ls.drop_first()));
    }
}

proof fn lemma_loops_well_unrolled(ls: Seq<Seq<char>>, i: int)
    requires
        forall|k: int| 0 <= k < ls.len() ==> !(#[trigger] ls[k]).contains('\n'),
    ensures
        loops_from(ls, i) matches Ok(found) ==> forall|k: int|
            0 <= k < found.len() ==> well_unrolled(#[trigger] found[k]),
    decreases ls.len() - i,
{
    if 0 <= i < ls.len() {
        lemma_block_end(ls, i);
        lemma_loops_well_unrolled(ls, i + 1);
        if let Ok(Some((m, e))) = block_at(ls, i) {
            let sub = ls.subrange(i + 1, e);
            assert forall|k: int| 0 <= k < sub.len() implies !(#[trigger] sub[k]).contains('\n') by {
                assert(sub[k] == ls[i + 1 + k]);
            }
            lemma_body_text_shape(sub);
            if let Ok(ms) = loops_from(ls, i + 1) {
                let all = seq![m] + ms;
                assert forall|k: int| 0 <= k < all.len() implies well_unrolled(#[trigger] all[k]) by {
                    if k > 0 {
                        assert(all[k] == ms[k - 1]);
                    }
                }
            }
        }
    }
}

/// Law: every loop found in a script runs at least twice, its body is
/// trimmed and holds no line break, and its unrolled text is the body
/// duplicated `iterations` times.
pub proof fn law_loops_duplicate_body(code: Seq<char>)
    ensures
        spec_get_loops(code) matches Ok(found) ==> forall|k: int|
            0 <= k < found.len() ==> well_unrolled(#[trigger] found[k]),
{
    lemma_lines_have_no_newline(code);
    lemma_loops_well_unrolled(lines(code), 0);
}

proof fn lemma_no_headers_no_loops(ls: Seq<Seq<char>>, i: int)
    requires
        0 <= i,
        forall|k: int| 0 <= k < ls.len() ==> !is_loop_header(#[trigger] ls[k]),
    ensures
        loops_from(ls, i) == Ok::<_, ScriptErrorModel>(Seq::<LoopModel>::empty()),
    decreases ls.len() - i,
{
    if i < ls.len() {
        assert(!is_loop_header(ls[i]));
        lemma_no_headers_no_loops(ls, i + 1);
    }
}

proof fn lemma_no_headers_text(ps: Seq<(Seq<char>, Seq<char>)>, i: int)
    requires
        0 <= i <= ps.len(),
        forall|k: int| 0 <= k < ps.len() ==> !is_loop_header(#[trigger] ps[k].0),
    ensures
        unrolled_text(
            Seq::new(ps.len(), |k: int| ps[k].0),
            Seq::new(ps.len(), |k: int| ps[k].1),
            i,
        ) == rejoin(ps.skip(i)),
    decreases ps.len() - i,
{
    let ls = Seq::new(ps.len(), |k: int| ps[k].0);
    let ts = Seq::new(ps.len(), |k: int| ps[k].1);
    if i == ps.len() {
        assert(ps.skip(i) =~= Seq::<(Seq<char>, Seq<char>)>::empty());
    } else {
        assert(!is_loop_header(ps[i].0));
        assert(ls[i] == ps[i].0);
        lemma_no_headers_text(ps, i + 1);
        assert(ps.skip(i)[0] == ps[i]);
        assert(ps.skip(i).drop_first() =~= ps.skip(i + 1));
    }
}

/// Law: a script without loop headers comes back from unrolling as it was,
/// but for the leftover `}` that follows a line break, which is cleared.
pub proof fn law_plain_script_unrolled_as_is(code: Seq<char>)
    requires
        forall|k: int| 0 <= k < lines(code).len() ==> !is_loop_header(#[trigger] lines(code)[k]),
    ensures
        spec_get_loops(code) == Ok::<_, ScriptErrorModel>(Seq::<LoopModel>::empty()),
        spec_use_loops(code) == Ok::<_, ScriptErrorModel>(replace_all(code, junk(), seq![])),
{
    lemma_no_headers_no_loops(lines(code), 0);
    lemma_line_parts(code);
    let ps = line_parts(code);
    assert forall|k: int| 0 <= k < ps.len() implies !is_loop_header(#[trigger] ps[k].0) by {
        assert(ps[k].0 == lines(code)[k]);
    }
    lemma_no_headers_text(ps, 0);
    assert(Seq::new(ps.len(), |k: int| ps[k].0) =~= lines(code)) by {
        assert forall|k: int| 0 <= k < ps.len() implies Seq::new(ps.len(), |j: int| ps[j].0)[k]
            == lines(code)[k] by {
            assert(ps[k].0 == lines(code)[k]);
        }
    }
    assert(Seq::new(ps.len(), |k: int| ps[k].1) =~= line_breaks(code));
    assert(ps.skip(0) =~= ps);
}

proof fn lemma_find_line_shift(ls: Seq<Seq<char>>, target: Seq<char>, d: int, from: int)
    requires
        0 <= d <= ls.len(),
        0 <= from,
    ensures
        find_line(ls.skip(d), target, from) == (if find_line(ls, target, from + d) < 0 {
            -1
        } else {
            find_line(ls, target, from + d) - d
        }),
    decreases ls.len() - d - from,
{
    if from < ls.len() - d {
        assert(ls.skip(d)[from] == ls[from + d]);
        if ls[from + d] != target {
            lemma_find_line_shift(ls, target, d, from + 1);
        }
    }
}

proof fn lemma_block_at_shift(ls: Seq<Seq<char>>, d: int, j: int)
    requires
        0 <= d,
        0 <= j,
        j + d < ls.len(),
    ensures
        block_at(ls.skip(d), j) == (match block_at(ls, j + d) {
            Ok(Some((m, e))) => Ok(Some((m, e - d))),
            other => other,
        }),
{
    let sl = ls.skip(d);
    assert(sl[j] == ls[j + d]);
    assert(sl.len() == ls.len() - d);
    lemma_find_line_shift(ls, body_begin(), d, j + 1);
    lemma_find_line_shift(ls, body_end(), d, j + 1);
    lemma_find_line(ls, body_begin(), j + d + 1);
    let e = find_line(ls, body_end(), j + d + 1);
    if e >= 0 {
        lemma_find_line(ls, body_end(), j + d + 1);
        assert(sl.subrange(j + 1, e - d) =~= ls.subrange(j + d + 1, e));
        assert(find_line(sl, body_end(), j + 1) == e - d);
        assert(body_text(sl.subrange(j + 1, e - d)) == body_text(ls.subrange(j + d + 1, e)));
    } else {
        assert(find_line(sl, body_end(), j + 1) == -1);
    }
    assert(find_line(sl, body_begin(), j + 1) < 0 <==> find_line(ls, body_begin(), j + d + 1) < 0);
    assert(j + 1 >= sl.len() <==> j + d + 1 >= ls.len());
}

proof fn lemma_unrolled_shift(ls: Seq<Seq<char>>, ts: Seq<Seq<char>>, d: int, i: int)
    requires
        0 <= d <= i,
        d <= ls.len(),
        ls.len() == ts.len(),
    ensures
        unrolled_text(ls, ts, i) == unrolled_text(ls.skip(d), ts.skip(d), i - d),
    decreases ls.len() - i,
{
    if i < ls.len() {
        lemma_block_end(ls, i);
        lemma_block_at_shift(ls, d, i - d);
        assert(ls.skip(d)[i - d] == ls[i]);
        assert(ts.skip(d)[i - d] == ts[i]);
        match block_at(ls, i) {
            Ok(Some((m, e))) => {
                assert(ts.skip(d)[e - d] == ts[e]);
                lemma_unrolled_shift(ls, ts, d, e + 1);
                assert(block_at(ls.skip(d), i - d) == Ok::<_, ScriptErrorModel>(
                    Some((m, e - d)),
                ));
                lemma_block_end(ls.skip(d), i - d);
            },
            _ => {
                lemma_unrolled_shift(ls, ts, d, i + 1);
                assert(block_at(ls.skip(d), i - d) == block_at(ls, i));
            },
        }
    }
}

/// What follows the first `n` lines of `code`, with their line breaks.
pub open spec fn after_lines(code: Seq<char>, n: int) -> Seq<char> {
    code.skip(rejoin(line_parts(code).take(n)).len() as int)
}

proof fn lemma_after_lines(code: Seq<char>, n: int)
    requires
        0 <= n <= lines(code).len(),
    ensures
        lines(after_lines(code, n)) == lines(code).skip(n),
        line_breaks(after_lines(code, n)) == line_breaks(code).skip(n),
        rejoin(line_parts(code).take(n)) + after_lines(code, n) == code,
{
    lemma_line_parts(code);
    lemma_parts_skip(code, n);
    let r = after_lines(code, n);
    lemma_line_parts(r);
    let ps = line_parts(code);
    assert(line_parts(r) == ps.skip(n));
    assert forall|i: int| 0 <= i < lines(r).len() implies lines(r)[i] == lines(code).skip(n)[i] by {
        assert(line_parts(r)[i].0 == lines(r)[i]);
        assert(ps[i + n].0 == lines(code)[i + n]);
    }
    assert(lines(r) =~= lines(code).skip(n));
    assert(line_breaks(r) =~= line_breaks(code).skip(n));
}

/// Law: a script is unrolled line by line from the top. If its first line
/// opens a loop block, the result is that loop's unrolled body, the line
/// break of the block's `}` line, and then what unrolling the rest of the
/// script (after that line) gives; otherwise it is the first line with its
/// line break, then what unrolling the rest gives. So every block is
/// unrolled, wherever it stands; and what `use_loops` returns is that text
/// with each line break followed by `}` removed.
pub proof fn law_unrolling_steps(code: Seq<char>)
    ensures
        spec_get_loops(code) is Ok ==> spec_use_loops(code) == Ok::<_, ScriptErrorModel>(
            replace_all(unrolled_text(lines(code), line_breaks(code), 0), junk(), seq![]),
        ),
        lines(code).len() == 0 ==> unrolled_text(lines(code), line_breaks(code), 0)
            == Seq::<char>::empty(),
        lines(code).len() > 0 ==> (match block_at(lines(code), 0) {
            Ok(Some((m, e))) => {
                &&& rejoin(line_parts(code).take(e + 1)) + after_lines(code, e + 1) == code
                &&& unrolled_text(lines(code), line_breaks(code), 0) == m.px_code
                    + line_breaks(code)[e] + unrolled_text(
                    lines(after_lines(code, e + 1)),
                    line_breaks(after_lines(code, e + 1)),
                    0,
                )
            },
            _ => {
                &&& rejoin(line_parts(code).take(1)) + after_lines(code, 1) == code
                &&& unrolled_text(lines(code), line_breaks(code), 0) == lines(code)[0]
                    + line_breaks(code)[0] + unrolled_text(
                    lines(after_lines(code, 1)),
                    line_breaks(after_lines(code, 1)),
                    0,
                )
            },
        }),
{
    let ls = lines(code);
    let ts = line_breaks(code);
    lemma_line_parts(code);
    if ls.len() > 0 {
        lemma_block_end(ls, 0);
        match block_at(ls, 0) {
            Ok(Some((m, e))) => {
                lemma_after_lines(code, e + 1);
                lemma_unrolled_shift(ls, ts, e + 1, e + 1);
            },
            _ => {
                lemma_after_lines(code, 1);
                lemma_unrolled_shift(ls, ts, 1, 1);
            },
        }
    }
}

// ---------------------------------------------------------------------------
// Loops: finding and unrolling them
// ---------------------------------------------------------------------------

fn is_line(line: &Vec<char>, c: char) -> (r: bool)
    ensures
        r == (line@ == seq![c]),
{
    let r = line.len() == 1 && line[0] == c;
    if r {
        assert(line@ =~= seq![c]);
    }
    r
}

fn starts_with_loop(line: &Vec<char>) -> (r: bool)
    ensures
        r == starts_with(line@, loop_keyword()),
{
    let r = line.len() >= 4 && line[0] == 'l' && line[1] == 'o' && line[2] == 'o' && line[3] == 'p';
    if line.len() >= 4 {
        if r {
            assert(line@.take(4) =~= loop_keyword());
        } else {
            assert(line@.take(4) != loop_keyword()) by {
                if line@.take(4) == loop_keyword() {
                    assert(line@.take(4)[0] == 'l');
                    assert(line@.take(4)[1] == 'o');
                    assert(line@.take(4)[2] == 'o');
                    assert(line@.take(4)[3] == 'p');
                }
            }
        }
    }
    r
}

/// Whether line `i` of `ls` can be sliced as a possible loop header.
fn header_sliceable_exec(line: &Vec<char>) -> (r: bool)
    ensures
        r == header_sliceable(line@),
{
    if at_least_bytes(line, 6) {
        if !boundary_at(line, 4) {
            return false;
        }
        if starts_with_loop(line) {
            if line.len() <= 4 || char_width(line[4]) != 1 {
                return false;
            }
        }
    }
    true
}

/// Whether every line of `ls` read as a possible loop header can be sliced.
fn readable_lines(ls: &Vec<Vec<char>>) -> (r: bool)
    ensures
        r == lines_readable(views(ls@)),
{
    let ghost vs = views(ls@);
    for i in 0..ls.len()
        invariant
            vs == views(ls@),
            forall|j: int| 0 <= j < i ==> !(#[trigger] block_at(vs, j) is Err),
            forall|j: int| 0 <= j < i ==> #[trigger] header_sliceable(vs[j]),
    {
        assert(vs[i as int] == ls@[i as int]@);
        if !header_sliceable_exec(&ls[i]) {
            assert(!refused_before(vs, i as int));
            return false;
        }
        match block_at_exec(ls, i) {
            Err(_) => {
                assert forall|k: int|
                    0 <= k < vs.len() && !refused_before(vs, k) implies #[trigger] header_sliceable(
                    vs[k],
                ) by {
                    if k > i {
                        assert(block_at(vs, i as int) is Err);
                    }
                }
                return true;
            },
            Ok(_) => {},
        }
    }
    assert forall|k: int|
        0 <= k < vs.len() && !refused_before(vs, k) implies #[trigger] header_sliceable(vs[k]) by {}
    true
}

/// Whether slicing each line of `code` read as a possible loop header stays
/// on character boundaries.
pub(crate) fn sliceable_chars(code: &Vec<char>) -> (r: bool)
    ensures
        r == script_sliceable(code@),
{
    let ls = lines_of(code);
    readable_lines(&ls)
}

/// Whether slicing each line of `code` read as a possible loop header stays
/// on character boundaries.
pub fn is_script_sliceable(code: &str) -> (r: bool)
    ensures
        r == script_sliceable(code@),
{
    let chars = chars_of(code);
    sliceable_chars(&chars)
}

/// Index of the first line equal to `[c]` at or after `from`.
fn find_line_exec(ls: &Vec<Vec<char>>, c: char, from: usize) -> (r: Option<usize>)
    ensures
        match r {
            Some(k) => find_line(views(ls@), seq![c], from as int) == k,
            None => find_line(views(ls@), seq![c], from as int) == -1,
        },
{
    let ghost vs = views(ls@);
    let mut k: usize = from;
    while k < ls.len()
        invariant
            from <= k,
            vs == views(ls@),
            find_line(vs, seq![c], from as int) == find_line(vs, seq![c], k as int),
        decreases ls.len() - k,
    {
        assert(vs[k as int] == ls@[k as int]@);
        if is_line(&ls[k], c) {
            return Some(k);
        }
        k = k + 1;
    }
    None
}

/// The body text of lines `start..end`.
fn body_text_exec(ls: &Vec<Vec<char>>, start: usize, end: usize) -> (r: Vec<char>)
    requires
        start <= end <= ls.len(),
    ensures
        r@ == body_text(views(ls@).subrange(start as int, end as int)),
{
    let ghost vs = views(ls@);
    let mut out: Vec<char> = Vec::new();
    let mut k: usize = start;
    assert(Seq::<char>::empty() + body_text(vs.subrange(start as int, end as int)) =~= body_text(
        vs.subrange(start as int, end as int),
    ));
    while k < end
        invariant
            start <= k <= end <= ls.len(),
            vs == views(ls@),
            out@ + body_text(vs.subrange(k as int, end as int)) == body_text(
                vs.subrange(start as int, end as int),
            ),
        decreases end - k,
    {
        let ghost rest = vs.subrange(k as int, end as int);
        let ghost old_out = out@;
        let line = &ls[k];
        assert(rest[0] == line@);
        assert(rest.drop_first() =~= vs.subrange(k + 1, end as int));
        if !is_line(line, '{') && !is_line(line, '}') {
            let t = trim_exec(line);
            push_all(&mut out, &t);
        }
        assert(old_out + body_text(rest) =~= out@ + body_text(vs.subrange(k + 1, end as int)));
        k = k + 1;
    }
    assert(vs.subrange(end as int, end as int) =~= Seq::<Seq<char>>::empty());
    assert(out@ + Seq::<char>::empty() =~= out@);
    out
}

/// `body` written `it` times.
fn repeat_exec(body: &Vec<char>, it: u8) -> (r: Vec<char>)
    ensures
        r@ == repeat(body@, it as nat),
{
    let mut r: Vec<char> = Vec::new();
    let mut k: u8 = 0;
    while k < it
        invariant
            k <= it,
            r@ == repeat(body@, k as nat),
        decreases it - k,
    {
        push_all(&mut r, body);
        k = k + 1;
    }
    r
}

/// The loop block that line `i` opens, with its unrolled text and the index
/// of its closing line.
fn block_at_exec(ls: &Vec<Vec<char>>, i: usize) -> (r: Result<
    Option<(FLoop, Vec<char>, usize)>,
    ScriptError,
>)
    requires
        i < ls.len(),
        header_sliceable(views(ls@)[i as int]),
    ensures
        match r {
            Ok(None) => block_at(views(ls@), i as int) == Ok::<_, ScriptErrorModel>(
                None::<(LoopModel, int)>,
            ),
            Ok(Some((f, px, e))) => block_at(views(ls@), i as int) == Ok::<_, ScriptErrorModel>(
                Some((f@, e as int)),
            ) && px@ == f@.px_code,
            Err(err) => block_at(views(ls@), i as int) == Err::<Option<(LoopModel, int)>, _>(
                err@,
            ),
        },
{
    let ghost vs = views(ls@);
    let line = &ls[i];
    assert(vs[i as int] == line@);
    if !(at_least_bytes(line, 6) && starts_with_loop(line)) {
        return Ok(None);
    }
    let count_text = skip_chars(line, 5);
    let v = match parse_u8(&count_text) {
        Some(v) => v,
        None => {
            return Err(ScriptError::InvalidIterationCount { line: string_of(line) });
        },
    };
    if i + 1 >= ls.len() {
        return Ok(None);
    }
    if find_line_exec(ls, '{', i + 1).is_none() {
        return Err(ScriptError::MissingBodyStart { line: string_of(line) });
    }
    let e = match find_line_exec(ls, '}', i + 1) {
        Some(e) => e,
        None => {
            return Err(ScriptError::MissingBodyEnd { line: string_of(line) });
        },
    };
    proof {
        lemma_find_line(vs, body_end(), i + 1);
    }
    let body = body_text_exec(ls, i + 1, e);
    let it: u8 = if v < 2 {
        2
    } else {
        v
    };
    let px = repeat_exec(&body, it);
    let f = FLoop { code_to_loop: string_of(&body), iterations: it, px_code: string_of(&px) };
    Ok(Some((f, px, e)))
}

/// `ms` put before the loops of `r`.
pub open spec fn prepend_loops(
    ms: Seq<LoopModel>,
    r: Result<Seq<LoopModel>, ScriptErrorModel>,
) -> Result<Seq<LoopModel>, ScriptErrorModel> {
    match r {
        Ok(ms2) => Ok(ms + ms2),
        Err(e) => Err(e),
    }
}

/// The loops of the lines `ls`, one per header line, or the first refusal.
fn loops_of_lines(ls: &Vec<Vec<char>>) -> (r: Result<Vec<FLoop>, ScriptError>)
    requires
        lines_readable(views(ls@)),
    ensures
        match r {
            Ok(v) => loops_from(views(ls@), 0) == Ok::<_, ScriptErrorModel>(loop_models(v@)),
            Err(e) => loops_from(views(ls@), 0) == Err::<Seq<LoopModel>, _>(e@),
        },
{
    let ghost vs = views(ls@);
    let mut out: Vec<FLoop> = Vec::new();
    proof {
        assert(loop_models(out@) =~= Seq::<LoopModel>::empty());
        if let Ok(a) = loops_from(vs, 0) {
            assert(Seq::<LoopModel>::empty() + a =~= a);
        }
    }
    for i in 0..ls.len()
        invariant
            vs == views(ls@),
            lines_readable(vs),
            forall|j: int| 0 <= j < i ==> !(#[trigger] block_at(vs, j) is Err),
            loops_from(vs, 0) == prepend_loops(loop_models(out@), loops_from(vs, i as int)),
    {
        let ghost old_ms = loop_models(out@);
        assert(!refused_before(vs, i as int));
        assert(header_sliceable(vs[i as int]));
        match block_at_exec(ls, i) {
            Err(e) => {
                return Err(e);
            },
            Ok(None) => {},
            Ok(Some((f, _, _))) => {
                let ghost m = f@;
                out.push(f);
                assert(loop_models(out@) =~= old_ms + seq![m]);
                proof {
                    if let Ok(a) = loops_from(vs, i + 1) {
                        assert(old_ms + (seq![m] + a) =~= loop_models(out@) + a);
                    }
                }
            },
        }
    }
    assert(loop_models(out@) + Seq::<LoopModel>::empty() =~= loop_models(out@));
    Ok(out)
}

/// The lines `ls` with their line breaks `ts`, each loop block unrolled.
fn text_of_lines(ls: &Vec<Vec<char>>, ts: &Vec<Vec<char>>) -> (r: Vec<char>)
    requires
        ls.len() == ts.len(),
        forall|j: int| 0 <= j < ls.len() ==> #[trigger] header_sliceable(views(ls@)[j]),
        forall|j: int| 0 <= j < ls.len() ==> !(#[trigger] block_at(views(ls@), j) is Err),
    ensures
        r@ == unrolled_text(views(ls@), views(ts@), 0),
{
    let ghost vs = views(ls@);
    let ghost ws = views(ts@);
    let mut out: Vec<char> = Vec::new();
    let mut i: usize = 0;
    assert(Seq::<char>::empty() + unrolled_text(vs, ws, 0) =~= unrolled_text(vs, ws, 0));
    while i < ls.len()
        invariant
            i <= ls.len(),
            ls.len() == ts.len(),
            vs == views(ls@),
            ws == views(ts@),
            forall|j: int| 0 <= j < ls.len() ==> #[trigger] header_sliceable(vs[j]),
            forall|j: int| 0 <= j < ls.len() ==> !(#[trigger] block_at(vs, j) is Err),
            out@ + unrolled_text(vs, ws, i as int) == unrolled_text(vs, ws, 0),
        decreases ls.len() - i,
    {
        let ghost old_out = out@;
        proof {
            lemma_block_end(vs, i as int);
        }
        assert(header_sliceable(vs[i as int]));
        match block_at_exec(ls, i) {
            Err(_) => {
                assert(block_at(vs, i as int) is Err);
                return out;
            },
            Ok(None) => {
                assert(vs[i as int] == ls@[i as int]@);
                assert(ws[i as int] == ts@[i as int]@);
                push_all(&mut out, &ls[i]);
                push_all(&mut out, &ts[i]);
                assert(old_out + (vs[i as int] + ws[i as int] + unrolled_text(vs, ws, i + 1))
                    =~= out@ + unrolled_text(vs, ws, i + 1));
                i = i + 1;
            },
            Ok(Some((_, px, e))) => {
                assert(ws[e as int] == ts@[e as int]@);
                push_all(&mut out, &px);
                push_all(&mut out, &ts[e]);
                assert(old_out + (px@ + ws[e as int] + unrolled_text(vs, ws, e + 1)) =~= out@
                    + unrolled_text(vs, ws, e + 1));
                i = e + 1;
            },
        }
    }
    assert(out@ + Seq::<char>::empty() =~= out@);
    out
}

/// The loops of `code` and the code with its loop blocks unrolled and its
/// stray `}` lines cleared.
fn unroll_chars(code: &Vec<char>) -> (r: Result<(Vec<FLoop>, Vec<char>), ScriptError>)
    requires
        script_sliceable(code@),
    ensures
        match r {
            Ok((v, t)) => spec_get_loops(code@) == Ok::<_, ScriptErrorModel>(loop_models(v@))
                && spec_use_loops(code@) == Ok::<_, ScriptErrorModel>(t@),
            Err(e) => spec_get_loops(code@) == Err::<Seq<LoopModel>, _>(e@)
                && spec_use_loops(code@) == Err::<Seq<char>, _>(e@),
        },
{
    let (ls, ts) = parts_of(code);
    proof {
        assert(views(ts@) =~= line_breaks(code@)) by {
            assert forall|i: int| 0 <= i < line_parts(code@).len() implies views(ts@)[i]
                == line_breaks(code@)[i] by {
                assert(line_parts(code@)[i] == (ls@[i]@, ts@[i]@));
            }
        }
    }
    let found = match loops_of_lines(&ls) {
        Ok(v) => v,
        Err(e) => {
            return Err(e);
        },
    };
    proof {
        lemma_loops_found_none_refused(views(ls@), 0);
        assert forall|j: int| 0 <= j < ls.len() implies #[trigger] header_sliceable(
            views(ls@)[j],
        ) by {
            assert(!refused_before(views(ls@), j));
        }
    }
    let text = text_of_lines(&ls, &ts);
    let stray = vec!['\n', '}'];
    let empty: Vec<char> = Vec::new();
    assert(stray@ =~= junk());
    assert(empty@ =~= Seq::<char>::empty());
    let cleared = replace_exec(&text, &stray, &empty);
    Ok((found, cleared))
}

/// Gets all the loops from the specified code.
pub fn get_loops(code: &str) -> (r: Result<Vec<FLoop>, ScriptError>)
    requires
        script_sliceable(code@),
    ensures
        match r {
            Ok(v) => spec_get_loops(code@) == Ok::<_, ScriptErrorModel>(loop_models(v@)),
            Err(e) => spec_get_loops(code@) == Err::<Seq<LoopModel>, _>(e@),
        },
{
    let chars = chars_of(code);
    let ls = lines_of(&chars);
    loops_of_lines(&ls)
}

/// Checks if the code has any loops, then unrolls them and removes excess
/// junk (a line break followed by `}`).
pub fn use_loops(code: &str) -> (r: Result<String, ScriptError>)
    requires
        script_sliceable(code@),
    ensures
        match r {
            Ok(s) => spec_use_loops(code@) == Ok::<_, ScriptErrorModel>(s@),
            Err(e) => spec_use_loops(code@) == Err::<Seq<char>, _>(e@),
        },
{
    let chars = chars_of(code);
    match unroll_chars(&chars) {
        Ok((_, t)) => Ok(string_of(&t)),
        Err(e) => Err(e),
    }
}

/// The loop headers of `ls` whose count below 2 was raised to 2, with that
/// count, up to the first refusal.
fn raised_of_lines(ls: &Vec<Vec<char>>) -> (r: Vec<RaisedCount>)
    requires
        lines_readable(views(ls@)),
    ensures
        raised_models(r@) == raised_from(views(ls@), 0),
{
    let ghost vs = views(ls@);
    let mut out: Vec<RaisedCount> = Vec::new();
    assert(raised_models(out@) + raised_from(vs, 0) =~= raised_from(vs, 0));
    for i in 0..ls.len()
        invariant
            vs == views(ls@),
            lines_readable(vs),
            forall|j: int| 0 <= j < i ==> !(#[trigger] block_at(vs, j) is Err),
            raised_from(vs, 0) == raised_models(out@) + raised_from(vs, i as int),
    {
        let ghost old = raised_models(out@);
        let line = &ls[i];
        assert(vs[i as int] == line@);
        assert(!refused_before(vs, i as int));
        assert(header_sliceable(vs[i as int]));
        let header = at_least_bytes(line, 6) && starts_with_loop(line);
        if header {
            let count_text = skip_chars(line, 5);
            if let Some(v) = parse_u8(&count_text) {
                if v < 2 {
                    out.push(RaisedCount { line: string_of(line), count: v });
                }
            }
        }
        let ghost here = raised_models(out@).skip(old.len() as int);
        assert(raised_models(out@) =~= old + here);
        match block_at_exec(ls, i) {
            Err(_) => {
                assert(raised_from(vs, i as int) == here);
                assert(raised_models(out@) + Seq::<(Seq<char>, u8)>::empty() =~= raised_models(
                    out@,
                ));
                return out;
            },
            Ok(_) => {
                assert(old + (here + raised_from(vs, i + 1)) =~= raised_models(out@)
                    + raised_from(vs, i + 1));
            },
        }
    }
    assert(raised_models(out@) + Seq::<(Seq<char>, u8)>::empty() =~= raised_models(out@));
    out
}

fn raised_counts_chars(code: &Vec<char>) -> (r: Vec<RaisedCount>)
    requires
        script_sliceable(code@),
    ensures
        raised_models(r@) == raised_from(lines(code@), 0),
{
    let ls = lines_of(code);
    raised_of_lines(&ls)
}

/// The loop headers of `code` whose iteration count is below 2 and is
/// raised to 2, with that count, in order, up to the first refusal.
pub fn raised_loop_counts(code: &str) -> (r: Vec<RaisedCount>)
    requires
        script_sliceable(code@),
    ensures
        raised_models(r@) == raised_from(lines(code@), 0),
{
    let chars = chars_of(code);
    raised_counts_chars(&chars)
}

/// The loop headers whose iteration count [`parse_ipx`] raises to 2, with
/// that count, in order, up to the first refusal.
pub fn parse_ipx_warnings(code: &str) -> (r: Vec<RaisedCount>)
    requires
        script_sliceable(code@ + FIBER_STD@),
    ensures
        raised_models(r@) == raised_from(lines(code@ + FIBER_STD@), 0),
{
    let mut chars = chars_of(code);
    let std = chars_of(FIBER_STD);
    push_all(&mut chars, &std);
    raised_counts_chars(&chars)
}

// ---------------------------------------------------------------------------
// Macros: what they are
// ---------------------------------------------------------------------------

/// A line that defines a macro: `$`, then a name, `=`, a value and `;`.
pub open spec fn is_macro_line(line: Seq<char>) -> bool {
    line.len() >= 2 && line[0] == '$' && line.contains('=')
}

/// The name of a macro line: the text before its first `=`.
pub open spec fn macro_name(line: Seq<char>) -> Seq<char> {
    line.take(first_index(line, '='))
}

/// The value of a macro line: the text after its first `=`, without its
/// last character (the `;`).
pub open spec fn macro_value(line: Seq<char>) -> Seq<char> {
    let v = line.skip(first_index(line, '=') + 1);
    if v.len() > 0 {
        v.drop_last()
    } else {
        v
    }
}

/// `c` with an ASCII upper-case letter taken to lower case.
pub open spec fn ascii_fold(c: char) -> int {
    if 'A' <= c && c <= 'Z' {
        (c as u32) + 32
    } else {
        (c as u32) as int
    }
}

/// `str::eq_ignore_ascii_case`.
pub open spec fn eq_ignore_ascii_case(a: Seq<char>, b: Seq<char>) -> bool {
    a.len() == b.len() && forall|i: int| 0 <= i < a.len() ==> ascii_fold(a[i]) == ascii_fold(b[i])
}

/// The macros `found` so far after reading `line`, or why it is refused.
pub open spec fn macro_step(found: Seq<MacroModel>, line: Seq<char>) -> Result<
    Seq<MacroModel>,
    ScriptErrorModel,
> {
    if !is_macro_line(line) {
        Ok(found)
    } else if !ends_with(line, seq![';']) {
        Err(ScriptErrorModel::MissingSemicolon { line })
    } else {
        let name = macro_name(line);
        if name.contains(' ') {
            Err(ScriptErrorModel::SpacesInMacroName { name })
        } else if name.len() == 0 {
            Err(ScriptErrorModel::EmptyMacroName)
        } else if exists|j: int| 0 <= j < found.len() && eq_ignore_ascii_case(found[j].name, name) {
            Err(ScriptErrorModel::DuplicateMacro { name })
        } else {
            Ok(found.push(MacroModel { name, value: macro_value(line), full: line }))
        }
    }
}

/// The macros defined by the lines `ls`, after those `found` before them.
pub open spec fn macros_over(ls: Seq<Seq<char>>, found: Seq<MacroModel>) -> Result<
    Seq<MacroModel>,
    ScriptErrorModel,
>
    decreases ls.len(),
{
    if ls.len() == 0 {
        Ok(found)
    } else {
        match macro_step(found, ls[0]) {
            Err(e) => Err(e),
            Ok(f) => macros_over(ls.drop_first(), f),
        }
    }
}

/// All macros of a script, in order, or the first refusal.
pub open spec fn spec_get_macros(code: Seq<char>) -> Result<Seq<MacroModel>, ScriptErrorModel> {
    macros_over(lines(code), seq![])
}

/// A macro as a definition line gives it: its line is its name, `=`, its
/// value and `;`, and its name is `$` and more, with no space and no `=`.
pub open spec fn well_formed_macro(m: MacroModel) -> bool {
    &&& m.full == m.name + seq!['='] + m.value + seq![';']
    &&& m.name.len() >= 1
    &&& m.name[0] == '$'
    &&& !m.name.contains(' ')
    &&& !m.name.contains('=')
}

proof fn lemma_macro_step(found: Seq<MacroModel>, line: Seq<char>)
    ensures
        macro_step(found, line) matches Ok(f) ==> f == found || (f == found.push(f.last())
            && well_formed_macro(f.last()) && f.last().full == line),
{
    if is_macro_line(line) && ends_with(line, seq![';']) {
        let fi = first_index(line, '=');
        lemma_first_index_facts(line, '=');
        let name = macro_name(line);
        if !name.contains(' ') && name.len() > 0 {
            let v = line.skip(fi + 1);
            assert(line.last() == ';') by {
                assert(line.skip(line.len() - 1)[0] == line.last());
            }
            assert(fi < line.len() - 1);
            assert(v.len() > 0);
            assert(v.last() == ';');
            assert(macro_value(line) == v.drop_last());
            assert(line =~= name + seq!['='] + v.drop_last() + seq![';']);
            assert(!name.contains('=')) by {
                if name.contains('=') {
                    let j = choose|j: int| 0 <= j < name.len() && name[j] == '=';
                    assert(line[j] == '=');
                }
            }
            assert(name[0] == line[0]);
        }
    }
}

proof fn lemma_macros_over(ls: Seq<Seq<char>>, found: Seq<MacroModel>, all: Seq<Seq<char>>)
    requires
        forall|j: int|
            0 <= j < found.len() ==> well_formed_macro(#[trigger] found[j]) && all.contains(
                found[j].full,
            ),
        forall|i: int| 0 <= i < ls.len() ==> all.contains(#[trigger] ls[i]),
    ensures
        macros_over(ls, found) matches Ok(ms) ==> forall|j: int|
            0 <= j < ms.len() ==> well_formed_macro(#[trigger] ms[j]) && all.contains(ms[j].full),
    decreases ls.len(),
{
    if ls.len() > 0 {
        lemma_macro_step(found, ls[0]);
        assert(all.contains(ls[0]));
        if let Ok(f) = macro_step(found, ls[0]) {
            assert forall|j: int| 0 <= j < f.len() implies well_formed_macro(#[trigger] f[j])
                && all.contains(f[j].full) by {
                if j < found.len() && f != found {
                    assert(f[j] == found[j]);
                }
            }
            assert forall|i: int| 0 <= i < ls.drop_first().len() implies all.contains(
                #[trigger] ls.drop_first()[i],
            ) by {
                assert(ls.drop_first()[i] == ls[i + 1]);
            }
            lemma_macros_over(ls.drop_first(), f, all);
        }
    }
}

/// Law: every macro found in a script comes from one of its lines, which is
/// the macro's name, `=`, its value and `;`; the name starts with `$` and
/// holds no space and no `=`.
pub proof fn law_macro_lines(code: Seq<char>)
    ensures
        spec_get_macros(code) matches Ok(ms) ==> forall|j: int|
            0 <= j < ms.len() ==> well_formed_macro(#[trigger] ms[j]) && lines(code).contains(
                ms[j].full,
            ),
{
    let ls = lines(code);
    assert forall|i: int| 0 <= i < ls.len() implies ls.contains(#[trigger] ls[i]) by {}
    lemma_macros_over(ls, seq![], ls);
}

/// The lines of `ps` that define no macro, each with its line break.
pub open spec fn kept_parts(ps: Seq<(Seq<char>, Seq<char>)>) -> Seq<char>
    decreases ps.len(),
{
    if ps.len() == 0 {
        seq![]
    } else {
        (if is_macro_line(ps[0].0) {
            seq![]
        } else {
            ps[0].0 + ps[0].1
        }) + kept_parts(ps.drop_first())
    }
}

/// `code` with each line that defines a macro taken out, together with its
/// line break; every other character stays as it was.
pub open spec fn strip_definitions(code: Seq<char>) -> Seq<char> {
    kept_parts(line_parts(code))
}

/// The lines of `ls` that define no macro.
pub open spec fn definition_free(ls: Seq<Seq<char>>) -> Seq<Seq<char>>
    decreases ls.len(),
{
    if ls.len() == 0 {
        seq![]
    } else {
        (if is_macro_line(ls[0]) {
            seq![]
        } else {
            seq![ls[0]]
        }) + definition_free(ls.drop_first())
    }
}

proof fn lemma_definition_free_shape(ls: Seq<Seq<char>>)
    ensures
        forall|k: int|
            0 <= k < definition_free(ls).len() ==> !is_macro_line(#[trigger] definition_free(ls)[k]),
    decreases ls.len(),
{
    if ls.len() > 0 {
        lemma_definition_free_shape(ls.drop_first());
        let df = definition_free(ls);
        let dr = definition_free(ls.drop_first());
        if is_macro_line(ls[0]) {
            assert(df =~= dr);
        } else {
            assert(df =~= seq![ls[0]] + dr);
            assert forall|k: int| 0 <= k < df.len() implies !is_macro_line(#[trigger] df[k]) by {
                if k > 0 {
                    assert(df[k] == dr[k - 1]);
                }
            }
        }
    }
}

proof fn lemma_definition_free_head(l: Seq<char>, rest: Seq<Seq<char>>)
    ensures
        definition_free(seq![l] + rest) == (if is_macro_line(l) {
            Seq::<Seq<char>>::empty()
        } else {
            seq![l]
        }) + definition_free(rest),
{
    assert((seq![l] + rest)[0] == l);
    assert((seq![l] + rest).drop_first() =~= rest);
}

proof fn lemma_strip_definitions(s: Seq<char>)
    ensures
        lines(strip_definitions(s)) == definition_free(lines(s)),
    decreases s.len(),
{
    if s.len() == 0 {
        assert(line_parts(s) =~= Seq::<(Seq<char>, Seq<char>)>::empty());
        assert(strip_definitions(s) =~= s);
        assert(lines(s) =~= Seq::<Seq<char>>::empty());
    } else {
        lemma_first_part(s);
        let k = first_index(s, '\n');
        let ps = line_parts(s);
        if k < 0 {
            assert(ps == seq![(s, Seq::<char>::empty())]);
            assert(ps[0].0 == s);
            assert(ps[0].1 == Seq::<char>::empty());
            assert(ps.drop_first() =~= Seq::<(Seq<char>, Seq<char>)>::empty());
            assert(kept_parts(ps.drop_first()) == Seq::<char>::empty());
            assert(lines(Seq::<char>::empty()) =~= Seq::<Seq<char>>::empty());
            lemma_definition_free_head(s, Seq::<Seq<char>>::empty());
            assert(seq![s] + Seq::<Seq<char>>::empty() =~= seq![s]);
            if !is_macro_line(s) {
                assert(s + Seq::<char>::empty() + Seq::<char>::empty() =~= s);
                assert(strip_definitions(s) == s);
            } else {
                assert(strip_definitions(s) =~= Seq::<char>::empty());
                assert(Seq::<char>::empty() + Seq::<char>::empty() =~= Seq::<char>::empty());
                assert(Seq::<Seq<char>>::empty() + Seq::<Seq<char>>::empty() =~= Seq::<
                    Seq<char>,
                >::empty());
            }
        } else {
            let a = s.take(k);
            let l = strip_cr(a);
            let t = s.subrange(l.len() as int, k + 1);
            let rest = s.skip(k + 1);
            lemma_strip_definitions(rest);
            assert(ps == seq![(l, t)] + line_parts(rest));
            assert(ps[0] == (l, t));
            assert(ps.drop_first() =~= line_parts(rest));
            lemma_definition_free_head(l, lines(rest));
            if is_macro_line(l) {
                assert(strip_definitions(s) =~= strip_definitions(rest));
                assert(Seq::<Seq<char>>::empty() + definition_free(lines(rest)) =~= definition_free(
                    lines(rest),
                ));
            } else {
                assert(strip_definitions(s) == a.push('\n') + strip_definitions(rest));
                lemma_lines_piece(a, strip_definitions(rest));
                assert(lines(strip_definitions(s)) == seq![l] + definition_free(lines(rest)));
            }
        }
    }
}

proof fn lemma_no_macros_found(ls: Seq<Seq<char>>, found: Seq<MacroModel>)
    requires
        forall|i: int| 0 <= i < ls.len() ==> !is_macro_line(#[trigger] ls[i]),
    ensures
        macros_over(ls, found) == Ok::<_, ScriptErrorModel>(found),
    decreases ls.len(),
{
    if ls.len() > 0 {
        assert(!is_macro_line(ls[0]));
        assert forall|i: int| 0 <= i < ls.drop_first().len() implies !is_macro_line(
            #[trigger] ls.drop_first()[i],
        ) by {
            assert(ls.drop_first()[i] == ls[i + 1]);
        }
        lemma_no_macros_found(ls.drop_first(), found);
    }
}

proof fn lemma_kept_all(ps: Seq<(Seq<char>, Seq<char>)>)
    requires
        forall|i: int| 0 <= i < ps.len() ==> !is_macro_line(#[trigger] ps[i].0),
    ensures
        kept_parts(ps) == rejoin(ps),
    decreases ps.len(),
{
    if ps.len() > 0 {
        assert(!is_macro_line(ps[0].0));
        assert forall|i: int| 0 <= i < ps.drop_first().len() implies !is_macro_line(
            #[trigger] ps.drop_first()[i].0,
        ) by {
            assert(ps.drop_first()[i] == ps[i + 1]);
        }
        lemma_kept_all(ps.drop_first());
    }
}

/// Law: expanding macros takes out exactly the definition lines: the lines
/// of the text in which names are then replaced by values are the script's
/// other lines, and none of them defines a macro.
pub proof fn law_definitions_removed(code: Seq<char>)
    ensures
        lines(strip_definitions(code)) == definition_free(lines(code)),
        forall|k: int|
            0 <= k < lines(strip_definitions(code)).len() ==> !is_macro_line(
                #[trigger] lines(strip_definitions(code))[k],
            ),
        spec_get_macros(code) matches Ok(ms) ==> spec_use_macros(code) == Ok::<
            Seq<char>,
            ScriptErrorModel,
        >(substitute(strip_definitions(code), ms)),
{
    lemma_strip_definitions(code);
    lemma_definition_free_shape(lines(code));
}

/// One step of macro expansion: `m`'s name replaced by its value in `acc`.
pub open spec fn expand_step() -> spec_fn(Seq<char>, MacroModel) -> Seq<char> {
    |acc: Seq<char>, m: MacroModel| replace_all(acc, m.name, m.value)
}

proof fn lemma_substitute_in_order(t: Seq<char>, ms: Seq<MacroModel>)
    ensures
        substitute(t, ms) == ms.fold_left_alt(t, expand_step()),
    decreases ms.len(),
{
    if ms.len() > 0 {
        assert(ms.subrange(1, ms.len() as int) =~= ms.drop_first());
        lemma_substitute_in_order(replace_all(t, ms[0].name, ms[0].value), ms.drop_first());
    }
}

/// Law: macros are expanded in the order in which they are defined. With
/// `ms` the macros of the script, the result is the text without its
/// definition lines in which the name of `ms[0]` is replaced by its value,
/// then, in what that gives, the name of `ms[1]`, and so on to the last; so
/// a value that names a macro defined later (such as a standard one) is
/// expanded too.
pub proof fn law_macros_expand_in_order(code: Seq<char>)
    ensures
        spec_get_macros(code) matches Ok(ms) ==> spec_use_macros(code) == Ok::<
            Seq<char>,
            ScriptErrorModel,
        >(ms.fold_left(strip_definitions(code), expand_step())),
        spec_get_macros(code) matches Ok(ms) ==> ms.len() > 0 ==> spec_use_macros(code) == Ok::<
            Seq<char>,
            ScriptErrorModel,
        >(
            replace_all(
                ms.drop_last().fold_left(strip_definitions(code), expand_step()),
                ms.last().name,
                ms.last().value,
            ),
        ),
{
    if let Ok(ms) = spec_get_macros(code) {
        lemma_substitute_in_order(strip_definitions(code), ms);
        ms.lemma_fold_left_alt(strip_definitions(code), expand_step());
    }
}

/// Law: a script that defines no macro comes back from expanding macros
/// unchanged, character for character.
pub proof fn law_plain_script_unchanged(code: Seq<char>)
    requires
        forall|i: int| 0 <= i < lines(code).len() ==> !is_macro_line(#[trigger] lines(code)[i]),
    ensures
        spec_use_macros(code) == Ok::<Seq<char>, ScriptErrorModel>(code),
{
    lemma_no_macros_found(lines(code), seq![]);
    lemma_line_parts(code);
    let ps = line_parts(code);
    assert forall|i: int| 0 <= i < ps.len() implies !is_macro_line(#[trigger] ps[i].0) by {
        assert(ps[i].0 == lines(code)[i]);
    }
    lemma_kept_all(ps);
}

/// `t` with the name of each macro of `ms`, in order, replaced by its value.
pub open spec fn substitute(t: Seq<char>, ms: Seq<MacroModel>) -> Seq<char>
    decreases ms.len(),
{
    if ms.len() == 0 {
        t
    } else {
        substitute(replace_all(t, ms[0].name, ms[0].value), ms.drop_first())
    }
}

/// What expanding the macros of `code` gives: its definition lines taken
/// out, then each macro's name replaced by its value, macro by macro.
pub open spec fn spec_use_macros(code: Seq<char>) -> Result<Seq<char>, ScriptErrorModel> {
    match spec_get_macros(code) {
        Ok(ms) => Ok(substitute(strip_definitions(code), ms)),
        Err(e) => Err(e),
    }
}

// ---------------------------------------------------------------------------
// Macros: finding and expanding them
// ---------------------------------------------------------------------------

fn fold_exec(c: char) -> (r: u32)
    ensures
        r == ascii_fold(c),
{
    if 'A' <= c && c <= 'Z' {
        (c as u32) + 32
    } else {
        c as u32
    }
}

fn eq_ignore_ascii_case_exec(a: &Vec<char>, b: &Vec<char>) -> (r: bool)
    ensures
        r == eq_ignore_ascii_case(a@, b@),
{
    if a.len() != b.len() {
        return false;
    }
    for i in 0..a.len()
        invariant
            a.len() == b.len(),
            forall|k: int| 0 <= k < i ==> ascii_fold(a@[k]) == ascii_fold(b@[k]),
    {
        if fold_exec(a[i]) != fold_exec(b[i]) {
            return false;
        }
    }
    true
}

/// Whether one of the macros `found` has the name `name`, ignoring ASCII case.
fn has_macro_named(found: &Vec<FMacro>, name: &Vec<char>) -> (r: bool)
    ensures
        r == exists|j: int|
            0 <= j < found.len() && eq_ignore_ascii_case(macro_models(found@)[j].name, name@),
{
    for j in 0..found.len()
        invariant
            forall|k: int|
                0 <= k < j ==> !eq_ignore_ascii_case(macro_models(found@)[k].name, name@),
    {
        let other = chars_of(found[j].name.as_str());
        if eq_ignore_ascii_case_exec(&other, name) {
            assert(macro_models(found@)[j as int].name == other@);
            return true;
        }
    }
    false
}

/// The macros `found` so far after reading `line`, or why it is refused.
fn macro_step_exec(found: &mut Vec<FMacro>, line: &Vec<char>) -> (r: Result<(), ScriptError>)
    ensures
        match r {
            Ok(_) => macro_step(macro_models(old(found)@), line@) == Ok::<_, ScriptErrorModel>(
                macro_models(final(found)@),
            ),
            Err(e) => macro_step(macro_models(old(found)@), line@) == Err::<
                Seq<MacroModel>,
                _,
            >(e@),
        },
{
    if !(line.len() >= 2 && line[0] == '$' && has_char(line, '=')) {
        return Ok(());
    }
    let semi = vec![';'];
    if !ends_with_exec(line, &semi) {
        assert(semi@ =~= seq![';']);
        return Err(ScriptError::MissingSemicolon { line: string_of(line) });
    }
    assert(semi@ =~= seq![';']);
    let eq = match find_char(line, '=') {
        Some(k) => k,
        None => {
            return Ok(());
        },
    };
    let name = take_chars(line, eq);
    let raw = skip_chars(line, eq + 1);
    if has_char(&name, ' ') {
        return Err(ScriptError::SpacesInMacroName { name: string_of(&name) });
    }
    if name.len() == 0 {
        return Err(ScriptError::EmptyMacroName);
    }
    if has_macro_named(found, &name) {
        return Err(ScriptError::DuplicateMacro { name: string_of(&name) });
    }
    let mut value = raw;
    value.pop();
    let ghost old_models = macro_models(found@);
    let m = FMacro { name: string_of(&name), value: string_of(&value), full: string_of(line) };
    found.push(m);
    assert(macro_models(found@) =~= old_models.push(
        MacroModel { name: name@, value: macro_value(line@), full: line@ },
    ));
    Ok(())
}

/// The macros defined by the lines `ls`, in order, or the first refusal.
fn macros_of_lines(ls: &Vec<Vec<char>>) -> (r: Result<Vec<FMacro>, ScriptError>)
    ensures
        match r {
            Ok(v) => macros_over(views(ls@), seq![]) == Ok::<_, ScriptErrorModel>(
                macro_models(v@),
            ),
            Err(e) => macros_over(views(ls@), seq![]) == Err::<Seq<MacroModel>, _>(e@),
        },
{
    let ghost vs = views(ls@);
    let mut found: Vec<FMacro> = Vec::new();
    assert(macro_models(found@) =~= Seq::<MacroModel>::empty());
    assert(vs.skip(0) =~= vs);
    for i in 0..ls.len()
        invariant
            vs == views(ls@),
            macros_over(vs, seq![]) == macros_over(vs.skip(i as int), macro_models(found@)),
    {
        assert(vs.skip(i as int)[0] == ls@[i as int]@);
        assert(vs.skip(i as int).drop_first() =~= vs.skip(i + 1));
        match macro_step_exec(&mut found, &ls[i]) {
            Ok(_) => {},
            Err(e) => {
                return Err(e);
            },
        }
    }
    assert(vs.skip(ls.len() as int) =~= Seq::<Seq<char>>::empty());
    Ok(found)
}

/// Checks if the code has any macros, then constructs them.
pub fn get_macros(code: &str) -> (r: Result<Vec<FMacro>, ScriptError>)
    ensures
        match r {
            Ok(v) => spec_get_macros(code@) == Ok::<_, ScriptErrorModel>(macro_models(v@)),
            Err(e) => spec_get_macros(code@) == Err::<Seq<MacroModel>, _>(e@),
        },
{
    let chars = chars_of(code);
    let ls = lines_of(&chars);
    macros_of_lines(&ls)
}

/// Replaces any matching macros in `code` with their values.
fn use_macros_chars(code: &Vec<char>) -> (r: Result<Vec<char>, ScriptError>)
    ensures
        match r {
            Ok(v) => spec_use_macros(code@) == Ok::<_, ScriptErrorModel>(v@),
            Err(e) => spec_use_macros(code@) == Err::<Seq<char>, _>(e@),
        },
{
    let (ls, ts) = parts_of(code);
    let found = match macros_of_lines(&ls) {
        Ok(found) => found,
        Err(e) => {
            return Err(e);
        },
    };
    let ghost ps = line_parts(code@);
    let mut cur: Vec<char> = Vec::new();
    assert(ps.skip(0) =~= ps);
    for i in 0..ls.len()
        invariant
            ls.len() == ts.len() == ps.len(),
            ps == line_parts(code@),
            forall|j: int| 0 <= j < ps.len() ==> (#[trigger] ps[j]) == (ls@[j]@, ts@[j]@),
            cur@ + kept_parts(ps.skip(i as int)) == kept_parts(ps),
    {
        let ghost old_cur = cur@;
        let line = &ls[i];
        assert(ps[i as int] == (ls@[i as int]@, ts@[i as int]@));
        assert(ps.skip(i as int)[0] == ps[i as int]);
        assert(ps.skip(i as int).drop_first() =~= ps.skip(i + 1));
        if !(line.len() >= 2 && line[0] == '$' && has_char(line, '=')) {
            push_all(&mut cur, line);
            push_all(&mut cur, &ts[i]);
        }
        assert(old_cur + kept_parts(ps.skip(i as int)) =~= cur@ + kept_parts(ps.skip(i + 1)));
    }
    assert(ps.skip(ls.len() as int) =~= Seq::<(Seq<char>, Seq<char>)>::empty());
    assert(cur@ + Seq::<char>::empty() =~= cur@);
    let ghost models = macro_models(found@);
    assert(models.skip(0) =~= models);
    for k in 0..found.len()
        invariant
            models == macro_models(found@),
            substitute(strip_definitions(code@), models) == substitute(
                cur@,
                models.skip(k as int),
            ),
    {
        let m = &found[k];
        assert(models.skip(k as int)[0] == m@);
        assert(models.skip(k as int).drop_first() =~= models.skip(k + 1));
        let name = chars_of(m.name.as_str());
        let value = chars_of(m.value.as_str());
        cur = replace_exec(&cur, &name, &value);
    }
    assert(models.skip(found.len() as int) =~= Seq::<MacroModel>::empty());
    Ok(cur)
}

/// Replaces any matching macros in the code, with the macro value.
pub fn use_macros(code: &str) -> (r: Result<String, ScriptError>)
    ensures
        match r {
            Ok(s) => spec_use_macros(code@) == Ok::<_, ScriptErrorModel>(s@),
            Err(e) => spec_use_macros(code@) == Err::<Seq<char>, _>(e@),
        },
{
    let chars = chars_of(code);
    match use_macros_chars(&chars) {
        Ok(v) => Ok(string_of(&v)),
        Err(e) => Err(e),
    }
}

// ---------------------------------------------------------------------------
// The whole conversion
// ---------------------------------------------------------------------------

/// What converting IPXScript `code` gives: the standard macros appended,
/// loops unrolled, macros expanded, comment lines removed, and the result
/// trimmed; or the first refusal.
pub open spec fn spec_parse_ipx(code: Seq<char>) -> Result<Seq<char>, ScriptErrorModel> {
    match spec_use_loops(code + FIBER_STD@) {
        Err(e) => Err(e),
        Ok(unrolled) => match spec_use_macros(unrolled) {
            Err(e) => Err(e),
            Ok(expanded) => Ok(trim(spec_erase_comment_lines(expanded))),
        },
    }
}

/// Whether [`parse_ipx`] can read `code`: every line of `code` followed by
/// the standard macros that is read as a possible loop header (each line up
/// to the first refused one) can be sliced as one.
pub fn can_parse_ipx(code: &str) -> (r: bool)
    ensures
        r == script_sliceable(code@ + FIBER_STD@),
{
    let mut chars = chars_of(code);
    let std = chars_of(FIBER_STD);
    push_all(&mut chars, &std);
    sliceable_chars(&chars)
}

/// Parses IPXScript to PXScript.
pub fn parse_ipx(code: String) -> (r: Result<String, ScriptError>)
    requires
        script_sliceable(code@ + FIBER_STD@),
    ensures
        match r {
            Ok(s) => spec_parse_ipx(code@) == Ok::<_, ScriptErrorModel>(s@),
            Err(e) => spec_parse_ipx(code@) == Err::<Seq<char>, _>(e@),
        },
        r matches Ok(s) ==> trim(s@) == s@,
{
    let mut chars = chars_of(code.as_str());
    let std = chars_of(FIBER_STD);
    push_all(&mut chars, &std);
    let unrolled = match unroll_chars(&chars) {
        Ok((_, v)) => v,
        Err(e) => {
            return Err(e);
        },
    };
    let expanded = match use_macros_chars(&unrolled) {
        Ok(v) => v,
        Err(e) => {
            return Err(e);
        },
    };
    let erased = erase_comment_lines_chars(&expanded);
    let trimmed = trim_exec(&erased);
    proof {
        crate::text::law_trim_idempotent(erased@);
    }
    Ok(string_of(&trimmed))
}

} // verus!
