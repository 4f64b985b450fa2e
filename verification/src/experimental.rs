//! The standard macro library that every script is given, and the
//! `$open_buy_menu(..)` snippet.
use vstd::prelude::*;

use crate::error::{ScriptError, ScriptErrorModel};
use crate::text::{
    chars_of, contains, contains_exec, find_char, has_char, find_seq, find_seq_exec, first_index, lemma_find_seq,
    lemma_first_index_facts, occurs_at, push_all, replace_all, replace_exec, skip_chars, string_of,
    take_chars,
};

verus! {

/// Fiber standard variables.
pub const FIBER_STD: &'static str = "$set_appearance=global/Horse.CloneHorseAppearance;
$set_player_name=global/PlayerName.SetDataString;
$set_horse_name=global/HorseName.SetDataString;
$heal_horse=global/Network.NetworkHorseFreeWellbeing;
$set_player_pos=global/Player.SetPosition;
$set_horse_pos=global/Horse.SetPosition;
$set_horse_mat=global/Horse/Skin/Pelvis.SetSkinMeshSubsetMaterial;
$chat=global/ChatWindow;
$delete_warnings=global/ForcePlayerFromRestrictedArea.Delete;
$move_horse_to=global/Horse.SetOrientationByObject;
$move_player_to=global/Player.SetOrientationByObject;
$spawn_bready=global/QuestManager/Episode1/Chain6004/E01_Quest_L01_C6004_010.QuestComplete;
$set_horse_body=global/Horse.HorseAppearanceCustomBody;
$set_horse_hair=global/Horse.HorseAppearanceCustomHair;
$set_client_sc=global/PlayerStarMoney.SetDataInt;
$set_client_js=global/PlayerMoney.SetDataInt;
$delete_gas=sys.DeleteGlobalAccessShortcut;
$set_gas=GlobalAccessShortcut;
$start_spawner[0]=global/PreShadowWitches.Start;
$stop_spawner[0]=global/PreShadowWitches.Stop;
$flush_spawner[0]=global/PreShadowWitches.FileObjectUnLoad;
$load_spawner[0]=global/PreShadowWitches.FileObjectLoad;
$set_spawner_target[0]=global/PreShadowWitches.SetFileObjectName;
$set_spawner_gas[0]=global/PreShadowWitches.GlobalAccessShortcut;
$start_spawner[1]=global/CableWayExcavator.Start;
$stop_spawner[1]=global/CableWayExcavator.Stop;
$flush_spawner[1]=global/CableWayExcavator.FileObjectUnLoad;
$load_spawner[1]=global/CableWayExcavator.FileObjectLoad;
$set_spawner_target[1]=global/CableWayExcavator.SetFileObjectName;
$set_spawner_gas[1]=global/CableWayExcavator.GlobalAccessShortcut;
$set_horse_speed=global/Horse/Skin/Pelvis.SetSkinMeshAnimationSpeed;
$load_staff_tool=global/GMUI.FileObjectLoad;
$start_staff_tool=global/GMWindow.Start;";

pub open spec fn buy_menu_keyword() -> Seq<char> {
    "$open_buy_menu"@
}

/// The id of an `$open_buy_menu(id);` snippet: the text between the first
/// `(` after the first `$open_buy_menu` of the code and the next `);`;
/// `None` when either is missing.
pub open spec fn buy_menu_id(code: Seq<char>) -> Option<Seq<char>> {
    let k = find_seq(code, buy_menu_keyword(), 0);
    let rest = code.skip(k + buy_menu_keyword().len());
    let p = first_index(rest, '(');
    let after = rest.skip(p + 1);
    let q = find_seq(after, ");"@, 0);
    if k < 0 || p < 0 || q < 0 {
        None
    } else {
        Some(after.take(q))
    }
}

/// The snippet `$open_buy_menu(id);`.
pub open spec fn buy_menu_call(id: Seq<char>) -> Seq<char> {
    "$open_buy_menu("@ + id + ");"@
}

/// The PXScript that opens the buy window for horse `id`.
pub open spec fn buy_menu_code(id: Seq<char>) -> Seq<char> {
    "global/HorseForSaleInfoWindow/RenderViews/RenderTargetView/Scene/Animation/Horse.CloneHorse("@
        + id
        + ", 1);\nglobal/HorseForSaleInfoWindow/RenderViews/RenderTargetView/Scene/Animation/Horse.HorseForSaleStartBuyWindow();"@
}

/// What expanding the `$open_buy_menu(id);` snippet of `code` gives: a
/// script that names `$open_buy_menu` but has no `(` at all is refused; one
/// whose call has no id ended by `);` is left as it is.
pub open spec fn spec_check_horse_purchase(code: Seq<char>) -> Result<Seq<char>, ScriptErrorModel> {
    if !contains(code, buy_menu_keyword()) {
        Ok(code)
    } else if !code.contains('(') {
        Err(ScriptErrorModel::InvalidBuyMenu)
    } else {
        match buy_menu_id(code) {
            None => Ok(code),
            Some(id) => Ok(replace_all(code, buy_menu_call(id), buy_menu_code(id))),
        }
    }
}

/// Law: whatever the text of the id, a script that holds a call
/// `$open_buy_menu(id);` (the `(` after its first `$open_buy_menu`, then the
/// id, then `);`) has every such call replaced by the buy-window code for
/// that id, and nothing else changed.
pub proof fn law_buy_menu_expanded(code: Seq<char>, id: Seq<char>)
    requires
        buy_menu_id(code) == Some(id),
    ensures
        spec_check_horse_purchase(code) == Ok::<_, ScriptErrorModel>(
            replace_all(code, buy_menu_call(id), buy_menu_code(id)),
        ),
{
    let kw = buy_menu_keyword();
    lemma_find_seq(code, kw, 0);
    let k = find_seq(code, kw, 0);
    assert(occurs_at(code, kw, k));
    assert(contains(code, kw));
    let rest = code.skip(k + kw.len());
    lemma_first_index_facts(rest, '(');
    let p = first_index(rest, '(');
    assert(code[k + kw.len() + p] == rest[p]);
    assert(code.contains('('));
}

/// Checks for $open_buy_menu(id); and replaces it with the PXScript code.
pub fn check_horse_purchase(code: String) -> (r: Result<String, ScriptError>)
    ensures
        match r {
            Ok(s) => spec_check_horse_purchase(code@) == Ok::<_, ScriptErrorModel>(s@),
            Err(e) => spec_check_horse_purchase(code@) == Err::<Seq<char>, _>(e@),
        },
{
    let chars = chars_of(code.as_str());
    let keyword = chars_of("$open_buy_menu");
    if !contains_exec(&chars, &keyword) {
        return Ok(code);
    }
    if !has_char(&chars, '(') {
        return Err(ScriptError::InvalidBuyMenu);
    }
    let k = match find_seq_exec(&chars, &keyword, 0) {
        Some(k) => k,
        None => {
            return Ok(code);
        },
    };
    proof {
        lemma_find_seq(chars@, keyword@, 0);
    }
    let rest = skip_chars(&chars, k + keyword.len());
    let p = match find_char(&rest, '(') {
        Some(p) => p,
        None => {
            return Ok(code);
        },
    };
    let after = skip_chars(&rest, p + 1);
    let close = chars_of(");");
    let q = match find_seq_exec(&after, &close, 0) {
        Some(q) => q,
        None => {
            return Ok(code);
        },
    };
    proof {
        lemma_find_seq(after@, close@, 0);
    }
    let id = take_chars(&after, q);
    let mut call = chars_of("$open_buy_menu(");
    push_all(&mut call, &id);
    push_all(&mut call, &close);
    let mut snippet = chars_of(
        "global/HorseForSaleInfoWindow/RenderViews/RenderTargetView/Scene/Animation/Horse.CloneHorse(",
    );
    push_all(&mut snippet, &id);
    let tail = chars_of(
        ", 1);\nglobal/HorseForSaleInfoWindow/RenderViews/RenderTargetView/Scene/Animation/Horse.HorseForSaleStartBuyWindow();",
    );
    push_all(&mut snippet, &tail);
    let out = replace_exec(&chars, &call, &snippet);
    Ok(string_of(&out))
}

} // verus!
