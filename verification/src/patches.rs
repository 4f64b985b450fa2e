//! Which patches a patch file asks for, and the text that goes into the
//! game's buffer files.
use vstd::prelude::*;

use crate::error::{PatchError, ScriptError, ScriptErrorModel};
use crate::experimental::{check_horse_purchase, spec_check_horse_purchase, FIBER_STD};
use crate::fiber::{parse_ipx, parse_ipx_warnings, raised_from, script_sliceable, sliceable_chars, spec_parse_ipx};
use crate::fiber_structs::{raised_models, RaisedCount};
use crate::patcher::{generate_remaining_for, padded};
use crate::text::{
    chars_of, ends_with, eq_chars, lines, lines_of, push_all, replace_all, replace_exec,
    string_of, trim, trim_exec,
};
use crate::utils::{
    ascii_only, erase_comment_lines, erase_comment_lines_chars, get_ascii, lemma_kept_is_join,
    non_comment, spec_erase_comment_lines,
};

verus! {

// ---------------------------------------------------------------------------
// Patch types
// ---------------------------------------------------------------------------

/// `patch` with every patch type name removed, then trimmed.
pub open spec fn spec_remove_type(patch: Seq<char>) -> Seq<char> {
    let a = replace_all(patch, "GAME_START"@, seq![]);
    let b = replace_all(a, "INV_CLICK_EXTENDED"@, seq![]);
    let c = replace_all(b, "QUESTS_CLICK"@, seq![]);
    let d = replace_all(c, "COLLECTIONS_CLICK"@, seq![]);
    let e = replace_all(d, "CSHEET_CLICK"@, seq![]);
    trim(e)
}

/// Removes the patch type from the string.
pub fn remove_type(patch: String) -> (r: String)
    ensures
        r@ == spec_remove_type(patch@),
        trim(r@) == r@,
{
    let mut text = chars_of(patch.as_str());
    let empty: Vec<char> = Vec::new();
    let a = chars_of("GAME_START");
    text = replace_exec(&text, &a, &empty);
    let b = chars_of("INV_CLICK_EXTENDED");
    text = replace_exec(&text, &b, &empty);
    let c = chars_of("QUESTS_CLICK");
    text = replace_exec(&text, &c, &empty);
    let d = chars_of("COLLECTIONS_CLICK");
    text = replace_exec(&text, &d, &empty);
    let e = chars_of("CSHEET_CLICK");
    text = replace_exec(&text, &e, &empty);
    let t = trim_exec(&text);
    proof {
        crate::text::law_trim_idempotent(text@);
    }
    string_of(&t)
}

/// The type of a patch file: the ASCII characters of its first line; `None`
/// when it has no line.
pub open spec fn spec_patch_type_of(contents: Seq<char>) -> Option<Seq<char>> {
    if lines(contents).len() == 0 {
        None
    } else {
        Some(ascii_only(lines(contents)[0]))
    }
}

/// The patch type named by the first line of a patch file.
pub fn patch_type_of(contents: &str) -> (r: Option<String>)
    ensures
        match r {
            Some(s) => spec_patch_type_of(contents@) == Some(s@),
            None => spec_patch_type_of(contents@) is None,
        },
{
    let chars = chars_of(contents);
    let ls = lines_of(&chars);
    if ls.len() == 0 {
        return None;
    }
    assert(crate::text::views(ls@)[0] == ls@[0]@);
    let first = string_of(&ls[0]);
    Some(get_ascii(first.as_str()))
}

// ---------------------------------------------------------------------------
// Which patches to apply
// ---------------------------------------------------------------------------

/// The code blocks of the game that a patch can replace.
#[derive(Debug, Clone, Copy, PartialEq, Eq, Structural)]
pub enum LookupTarget {
    GameHmarketStart,
    GameInvClick,
    GameIntroStart,
    GameQuestsClick,
    GameCollectionsClick,
    GameCsheetClick,
}

/// One patch to apply: `code` is the code to write, or `None` for the
/// user's patch file, which is read and converted first.
#[derive(Debug)]
pub struct PatchStep {
    pub code: Option<String>,
    pub csa_id: String,
    pub target: LookupTarget,
}

/// The contents of a [`PatchStep`].
pub struct StepModel {
    pub code: Option<Seq<char>>,
    pub csa_id: Seq<char>,
    pub target: LookupTarget,
}

impl View for PatchStep {
    type V = StepModel;

    open spec fn view(&self) -> StepModel {
        StepModel {
            code: match self.code {
                Some(c) => Some(c@),
                None => None,
            },
            csa_id: self.csa_id@,
            target: self.target,
        }
    }
}

pub open spec fn step_models(v: Seq<PatchStep>) -> Seq<StepModel> {
    Seq::new(v.len(), |i: int| v[i]@)
}

/// The code that makes the inventory click start the introduction script.
pub open spec fn intro_call() -> Seq<char> {
    "global/ABTests/SkipIntroMovie.RunScript(\"Introduction1_OnActionStart\");"@
}

/// The user's patch file into buffer file `02`, at `target`.
pub open spec fn user_step(target: LookupTarget) -> StepModel {
    StepModel { code: None, csa_id: "02"@, target }
}

/// The patches that a patch type asks for, spaces in it ignored; `None` for
/// an unknown type.
pub open spec fn spec_patch_game(patch_type: Seq<char>) -> Option<Seq<StepModel>> {
    let t = replace_all(patch_type, seq![' '], seq![]);
    if t == "GAME_START"@ {
        Some(seq![user_step(LookupTarget::GameHmarketStart)])
    } else if t == "INV_CLICK_EXTENDED"@ {
        Some(
            seq![
                StepModel {
                    code: Some(intro_call()),
                    csa_id: "02"@,
                    target: LookupTarget::GameInvClick,
                },
                user_step(LookupTarget::GameIntroStart),
            ],
        )
    } else if t == "QUESTS_CLICK"@ {
        Some(seq![user_step(LookupTarget::GameQuestsClick)])
    } else if t == "COLLECTIONS_CLICK"@ {
        Some(seq![user_step(LookupTarget::GameCollectionsClick)])
    } else if t == "CSHEET_CLICK"@ {
        Some(seq![user_step(LookupTarget::GameCsheetClick)])
    } else {
        None
    }
}

/// Law: every patch that a known patch type asks for goes into buffer file
/// `02`; the user's patch file is written exactly once, by the last step;
/// and two patch types that write the user's patch at the same place are
/// the same type (spaces aside).
pub proof fn law_patch_steps(t1: Seq<char>, t2: Seq<char>)
    ensures
        spec_patch_game(t1) matches Some(steps) ==> {
            &&& steps.len() > 0
            &&& forall|i: int| 0 <= i < steps.len() ==> (#[trigger] steps[i]).csa_id == "02"@
            &&& steps.last().code is None
            &&& forall|i: int| 0 <= i < steps.len() - 1 ==> (#[trigger] steps[i]).code is Some
        },
        spec_patch_game(t1) matches Some(s1) ==> spec_patch_game(t2) matches Some(s2) ==> s1.last().target
            == s2.last().target ==> replace_all(t1, seq![' '], seq![]) == replace_all(
            t2,
            seq![' '],
            seq![],
        ),
{
}

fn user_step_exec(target: LookupTarget) -> (s: PatchStep)
    ensures
        s@ == user_step(target),
{
    PatchStep { code: None, csa_id: "02".to_owned(), target }
}

/// The patches that a patch type asks for.
pub fn patch_game(patch_type: &str) -> (r: Result<Vec<PatchStep>, PatchError>)
    ensures
        match spec_patch_game(patch_type@) {
            Some(steps) => r matches Ok(v) && step_models(v@) == steps,
            None => r matches Err(PatchError::InvalidPatchType),
        },
{
    let chars = chars_of(patch_type);
    let space = vec![' '];
    let empty: Vec<char> = Vec::new();
    assert(space@ =~= seq![' ']);
    let t = replace_exec(&chars, &space, &empty);
    let mut steps: Vec<PatchStep> = Vec::new();
    if eq_chars(&t, &chars_of("GAME_START")) {
        steps.push(user_step_exec(LookupTarget::GameHmarketStart));
    } else if eq_chars(&t, &chars_of("INV_CLICK_EXTENDED")) {
        steps.push(
            PatchStep {
                code: Some(
                    "global/ABTests/SkipIntroMovie.RunScript(\"Introduction1_OnActionStart\");".to_owned(),
                ),
                csa_id: "02".to_owned(),
                target: LookupTarget::GameInvClick,
            },
        );
        steps.push(user_step_exec(LookupTarget::GameIntroStart));
    } else if eq_chars(&t, &chars_of("QUESTS_CLICK")) {
        steps.push(user_step_exec(LookupTarget::GameQuestsClick));
    } else if eq_chars(&t, &chars_of("COLLECTIONS_CLICK")) {
        steps.push(user_step_exec(LookupTarget::GameCollectionsClick));
    } else if eq_chars(&t, &chars_of("CSHEET_CLICK")) {
        steps.push(user_step_exec(LookupTarget::GameCsheetClick));
    } else {
        return Err(PatchError::InvalidPatchType);
    }
    assert(step_models(steps@) =~= spec_patch_game(patch_type@).unwrap());
    Ok(steps)
}

// ---------------------------------------------------------------------------
// Files and code
// ---------------------------------------------------------------------------

/// `s` with `suffix` appended unless it already ends with it.
pub fn with_suffix(s: String, suffix: &str) -> (r: String)
    ensures
        ends_with(s@, suffix@) ==> r@ == s@,
        !ends_with(s@, suffix@) ==> r@ == s@ + suffix@,
{
    let chars = chars_of(s.as_str());
    let suf = chars_of(suffix);
    if crate::text::ends_with_exec(&chars, &suf) {
        s
    } else {
        let mut out = chars;
        push_all(&mut out, &suf);
        string_of(&out)
    }
}

/// The buffer file `p_000000<csa_id>.csa` in the pack-files directory `path`,
/// which must end with `/`.
pub fn csa_file_path(path: &str, csa_id: &str) -> (r: Result<String, PatchError>)
    ensures
        ends_with(path@, seq!['/']) ==> (r matches Ok(s) && s@ == path@ + "p_000000"@ + csa_id@
            + ".csa"@),
        !ends_with(path@, seq!['/']) ==> (r matches Err(PatchError::PathWithoutSlash { path: p })
            && p@ == path@),
{
    let mut out = chars_of(path);
    let slash = vec!['/'];
    assert(slash@ =~= seq!['/']);
    if !crate::text::ends_with_exec(&out, &slash) {
        return Err(PatchError::PathWithoutSlash { path: path.to_owned() });
    }
    let ghost p0 = out@;
    push_all(&mut out, &chars_of("p_000000"));
    push_all(&mut out, &chars_of(csa_id));
    push_all(&mut out, &chars_of(".csa"));
    Ok(string_of(&out))
}

/// What the code of a patch becomes before it is written: a patch file is
/// stripped of its comment lines, converted to PXScript and given its
/// `$open_buy_menu` snippet; then every patch type name is removed.
pub open spec fn spec_patch_code(patch: Seq<char>, from_file: bool) -> Result<
    Seq<char>,
    ScriptErrorModel,
> {
    if from_file {
        match spec_parse_ipx(spec_erase_comment_lines(patch)) {
            Err(e) => Err(e),
            Ok(p) => match spec_check_horse_purchase(p) {
                Err(e) => Err(e),
                Ok(q) => Ok(spec_remove_type(q)),
            },
        }
    } else {
        Ok(spec_remove_type(patch))
    }
}

/// Law: the comment lines of a patch file never reach the converter: two
/// patch files whose lines other than comments are the same are read alike
/// and give the same code.
pub proof fn law_comments_do_not_matter(p: Seq<char>, q: Seq<char>)
    requires
        non_comment(lines(p)) == non_comment(lines(q)),
    ensures
        spec_erase_comment_lines(p) == spec_erase_comment_lines(q),
        script_sliceable(spec_erase_comment_lines(p) + FIBER_STD@) == script_sliceable(
            spec_erase_comment_lines(q) + FIBER_STD@,
        ),
        spec_patch_code(p, true) == spec_patch_code(q, true),
{
    lemma_kept_is_join(lines(p));
    lemma_kept_is_join(lines(q));
}

/// Whether [`patch_code`] can read the patch file `patch`.
pub fn can_read_patch_file(patch: &str) -> (r: bool)
    ensures
        r == script_sliceable(spec_erase_comment_lines(patch@) + FIBER_STD@),
{
    let chars = chars_of(patch);
    let mut erased = erase_comment_lines_chars(&chars);
    push_all(&mut erased, &chars_of(FIBER_STD));
    sliceable_chars(&erased)
}

/// The loop headers of the patch file `patch` whose iteration count
/// [`patch_code`] raises to 2, with that count, in order.
pub fn patch_file_warnings(patch: &str) -> (r: Vec<RaisedCount>)
    requires
        script_sliceable(spec_erase_comment_lines(patch@) + FIBER_STD@),
    ensures
        raised_models(r@) == raised_from(lines(spec_erase_comment_lines(patch@) + FIBER_STD@), 0),
{
    let chars = chars_of(patch);
    let erased = erase_comment_lines_chars(&chars);
    let code = string_of(&erased);
    parse_ipx_warnings(code.as_str())
}

/// The code that a patch writes: `patch` is the contents of the patch file
/// when `from_file`, else the code itself.
pub fn patch_code(patch: String, from_file: bool) -> (r: Result<String, ScriptError>)
    requires
        from_file ==> script_sliceable(spec_erase_comment_lines(patch@) + FIBER_STD@),
    ensures
        match r {
            Ok(s) => spec_patch_code(patch@, from_file) == Ok::<_, ScriptErrorModel>(s@),
            Err(e) => spec_patch_code(patch@, from_file) == Err::<Seq<char>, _>(e@),
        },
{
    let mut code = patch;
    if from_file {
        let parsed = match parse_ipx(erase_comment_lines(code)) {
            Ok(p) => p,
            Err(e) => {
                return Err(e);
            },
        };
        code = match check_horse_purchase(parsed) {
            Ok(q) => q,
            Err(e) => {
                return Err(e);
            },
        };
    }
    Ok(remove_type(code))
}

/// The text to look for and the text to write in its place: the game's
/// code and the patch, or, to revert, the patch fitted to the code's length
/// and the code.
pub fn patch_replacement(decoded: String, patch: String, revert: bool) -> (r: (String, String))
    ensures
        revert ==> r.0@ == padded(decoded@, patch@) && r.1@ == decoded@,
        !revert ==> r.0@ == decoded@ && r.1@ == patch@,
{
    if revert {
        let from = generate_remaining_for(decoded.clone(), patch);
        (from, decoded)
    } else {
        (decoded, patch)
    }
}

} // verus!
