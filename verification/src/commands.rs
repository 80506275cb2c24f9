//! The edits the window asks of the launch list: adding a URL or several
//! dropped paths, removing an item, changing one item, and the delays.
use vstd::prelude::*;
use vstd::string::StringExecFns;
use crate::config::{
    ItemKind, LaunchConfig, LaunchItem, add_target_outcome, add_target_with, at_most, clamp_delays,
    clamp_item_delay, is_web_address, is_web_chars, kind_rule, max_item_delay, max_login_delay,
    max_stagger,
};
use crate::host::{backslash_separates, opt_view};
use crate::launch::string_views;
use crate::text::{chars_of, law_trim_idempotent, same_chars, str_eq, string_of, trim, trim_chars};

verus! {

/// The message for a command about an id that is not listed.
pub open spec fn item_not_found_message() -> Seq<char> {
    "Item not found"@
}

/// The message when a drop held nothing to add.
pub open spec fn nothing_to_add_message() -> Seq<char> {
    "Nothing to add"@
}

/// The message for an address without a web scheme.
pub open spec fn bad_url_message() -> Seq<char> {
    "URL must start with http:// or https://"@
}

/// The trimmed address when it begins with `http://` or `https://`, else
/// the message that asks for such an address.
pub fn validate_url(url: &str) -> (r: Result<String, String>)
    ensures
        is_web_address(trim(url@)) ==> (r matches Ok(u) && u@ == trim(url@)),
        !is_web_address(trim(url@)) ==> (r matches Err(e) && e@ == bad_url_message()),
{
    let t = trim_chars(&chars_of(url));
    if is_web_chars(&t) {
        Ok(string_of(&t))
    } else {
        Err(String::from_str("URL must start with http:// or https://"))
    }
}

/// The list after a run of additions with the given results.
pub open spec fn list_after(items: Seq<LaunchItem>, rs: Seq<Result<LaunchItem, String>>) -> Seq<
    LaunchItem,
>
    decreases rs.len(),
{
    if rs.len() == 0 {
        items
    } else {
        let p = list_after(items, rs.drop_last());
        match rs.last() {
            Ok(item) => p.push(item),
            Err(_) => p,
        }
    }
}

/// `rs` are the results of adding `paths` one after another to `items`.
pub open spec fn adds_follow(
    items: Seq<LaunchItem>,
    paths: Seq<Seq<char>>,
    fold_case: bool,
    rs: Seq<Result<LaunchItem, String>>,
) -> bool {
    &&& rs.len() == paths.len()
    &&& forall|k: int|
        0 <= k < rs.len() ==> add_target_outcome(
            list_after(items, rs.take(k)),
            #[trigger] paths[k],
            fold_case,
            rs[k],
            list_after(items, rs.take(k + 1)),
        )
}

/// How many of the results added an item.
pub open spec fn count_added(rs: Seq<Result<LaunchItem, String>>) -> nat
    decreases rs.len(),
{
    if rs.len() == 0 {
        0
    } else {
        count_added(rs.drop_last()) + if rs.last() is Ok {
            1nat
        } else {
            0nat
        }
    }
}

/// The message of the last refused addition, if any.
pub open spec fn last_error(rs: Seq<Result<LaunchItem, String>>) -> Option<Seq<char>>
    decreases rs.len(),
{
    if rs.len() == 0 {
        None
    } else {
        match rs.last() {
            Err(e) => Some(e@),
            Ok(_) => last_error(rs.drop_last()),
        }
    }
}

/// What adding several paths answers: how many were added, or, when none
/// was, the message of the last refusal ("Nothing to add" when there was
/// no path).
pub open spec fn adds_answer(rs: Seq<Result<LaunchItem, String>>, r: Result<usize, String>) -> bool {
    if count_added(rs) == 0 {
        r matches Err(e) && e@ == match last_error(rs) {
            Some(m) => m,
            None => nothing_to_add_message(),
        }
    } else {
        r matches Ok(n) && n == count_added(rs)
    }
}

proof fn lemma_count_added_bound(rs: Seq<Result<LaunchItem, String>>)
    ensures
        count_added(rs) <= rs.len(),
    decreases rs.len(),
{
    if rs.len() > 0 {
        lemma_count_added_bound(rs.drop_last());
    }
}

/// Adds each of `paths` in turn as `add_target` does; succeeds with the
/// number added when at least one was, else fails with the last refusal.
pub fn add_targets(cfg: &mut LaunchConfig, paths: Vec<String>) -> (r: Result<usize, String>)
    ensures
        exists|fold_case: bool, rs: Seq<Result<LaunchItem, String>>|
            #![trigger adds_follow(old(cfg).items@, string_views(paths@), fold_case, rs)]
            {
                &&& adds_follow(old(cfg).items@, string_views(paths@), fold_case, rs)
                &&& final(cfg).items@ == list_after(old(cfg).items@, rs)
                &&& adds_answer(rs, r)
            },
        final(cfg).login_delay_ms == old(cfg).login_delay_ms,
        final(cfg).stagger_ms == old(cfg).stagger_ms,
{
    let fold = backslash_separates();
    let ghost mut rs: Seq<Result<LaunchItem, String>> = seq![];
    let ghost views = string_views(paths@);
    let mut added: usize = 0;
    let mut last_err: Option<String> = None;
    let n = paths.len();
    for i in 0..n
        invariant
            n == paths@.len(),
            views == string_views(paths@),
            rs.len() == i,
            forall|k: int|
                0 <= k < i ==> add_target_outcome(
                    list_after(old(cfg).items@, rs.take(k)),
                    #[trigger] views[k],
                    fold,
                    rs[k],
                    list_after(old(cfg).items@, rs.take(k + 1)),
                ),
            cfg.items@ == list_after(old(cfg).items@, rs),
            added == count_added(rs),
            opt_view(last_err) == last_error(rs),
            cfg.login_delay_ms == old(cfg).login_delay_ms,
            cfg.stagger_ms == old(cfg).stagger_ms,
    {
        let ghost before = cfg.items@;
        let ghost old_rs = rs;
        let r = add_target_with(cfg, paths[i].clone(), fold);
        proof {
            rs = rs.push(r);
            assert(rs.drop_last() == old_rs);
            assert(rs.take(i as int) == old_rs);
            assert(rs.take(i + 1) == rs);
            assert forall|k: int| 0 <= k < i + 1 implies add_target_outcome(
                list_after(old(cfg).items@, rs.take(k)),
                #[trigger] views[k],
                fold,
                rs[k],
                list_after(old(cfg).items@, rs.take(k + 1)),
            ) by {
                if k < i {
                    assert(rs.take(k) == old_rs.take(k));
                    assert(rs.take(k + 1) == old_rs.take(k + 1));
                }
            }
            lemma_count_added_bound(old_rs);
        }
        match r {
            Ok(_) => {
                added = added + 1;
            },
            Err(e) => {
                last_err = Some(e);
            },
        }
    }
    proof {
        assert(rs.take(rs.len() as int) == rs);
    }
    let r = if added == 0 {
        match last_err {
            Some(e) => Err(e),
            None => Err(String::from_str("Nothing to add")),
        }
    } else {
        Ok(added)
    };
    assert(adds_follow(old(cfg).items@, string_views(paths@), fold, rs));
    assert(adds_answer(rs, r));
    r
}

/// Some item has the id `id`.
pub open spec fn has_id(items: Seq<LaunchItem>, id: Seq<char>) -> bool {
    exists|i: int| 0 <= i < items.len() && #[trigger] items[i].id@ == id
}

/// The list without the items whose id is `id`.
pub open spec fn without_id(items: Seq<LaunchItem>, id: Seq<char>) -> Seq<LaunchItem>
    decreases items.len(),
{
    if items.len() == 0 {
        seq![]
    } else {
        let p = without_id(items.drop_last(), id);
        if items.last().id@ == id {
            p
        } else {
            p.push(items.last())
        }
    }
}

proof fn lemma_without_id_absent(items: Seq<LaunchItem>, id: Seq<char>)
    requires
        !has_id(items, id),
    ensures
        without_id(items, id) == items,
    decreases items.len(),
{
    if items.len() > 0 {
        let p = items.drop_last();
        assert(!has_id(p, id)) by {
            if has_id(p, id) {
                let i = choose|i: int| 0 <= i < p.len() && #[trigger] p[i].id@ == id;
                assert(items[i].id@ == id);
            }
        }
        lemma_without_id_absent(p, id);
        assert(items.last().id@ != id) by {
            if items.last().id@ == id {
                assert(items[items.len() - 1].id@ == id);
            }
        }
        assert(p.push(items.last()) == items);
    }
}

/// Removes every item whose id is `id`; fails, changing nothing, when no
/// item has that id.
pub fn remove_item(cfg: &mut LaunchConfig, id: &str) -> (r: Result<(), String>)
    ensures
        final(cfg).items@ == without_id(old(cfg).items@, id@),
        has_id(old(cfg).items@, id@) ==> r is Ok,
        !has_id(old(cfg).items@, id@) ==> (r matches Err(e) && e@ == item_not_found_message()
            && final(cfg).items@ == old(cfg).items@),
        final(cfg).login_delay_ms == old(cfg).login_delay_ms,
        final(cfg).stagger_ms == old(cfg).stagger_ms,
{
    let n = cfg.items.len();
    let mut kept: Vec<LaunchItem> = Vec::new();
    let mut removed = false;
    for i in 0..n
        invariant
            n == cfg.items@.len(),
            *cfg == *old(cfg),
            kept@ == without_id(cfg.items@.take(i as int), id@),
            removed == has_id(cfg.items@.take(i as int), id@),
    {
        let ghost items = cfg.items@;
        assert(items.take(i + 1).drop_last() == items.take(i as int));
        assert(items.take(i + 1).last() == items[i as int]);
        if str_eq(cfg.items[i].id.as_str(), id) {
            removed = true;
            assert(items.take(i + 1)[i as int].id@ == id@);
        } else {
            kept.push(cfg.items[i].clone());
            assert(has_id(items.take(i + 1), id@) == has_id(items.take(i as int), id@)) by {
                if has_id(items.take(i + 1), id@) {
                    let j = choose|j: int|
                        0 <= j < i + 1 && #[trigger] items.take(i + 1)[j].id@ == id@;
                    assert(items.take(i as int)[j].id@ == id@);
                }
                if has_id(items.take(i as int), id@) {
                    let j = choose|j: int|
                        0 <= j < i && #[trigger] items.take(i as int)[j].id@ == id@;
                    assert(items.take(i + 1)[j].id@ == id@);
                }
            }
        }
        proof {
            if removed && !has_id(items.take(i as int), id@) {
                assert(items.take(i + 1)[i as int].id@ == id@);
            }
            if has_id(items.take(i as int), id@) {
                let j = choose|j: int| 0 <= j < i && #[trigger] items.take(i as int)[j].id@ == id@;
                assert(items.take(i + 1)[j].id@ == id@);
            }
        }
    }
    assert(cfg.items@.take(n as int) == cfg.items@);
    if !removed {
        proof {
            lemma_without_id_absent(old(cfg).items@, id@);
        }
        return Err(String::from_str("Item not found"));
    }
    cfg.items = kept;
    Ok(())
}

/// The index of the first item at or after `i` whose id is `id`, or the
/// length of the list.
pub open spec fn index_of_id(items: Seq<LaunchItem>, id: Seq<char>, i: int) -> int
    decreases items.len() - i,
{
    if i >= items.len() {
        items.len() as int
    } else if items[i].id@ == id {
        i
    } else {
        index_of_id(items, id, i + 1)
    }
}

/// The index of the first item whose id is `id`, or the length of the
/// list.
pub open spec fn item_index(items: Seq<LaunchItem>, id: Seq<char>) -> int {
    index_of_id(items, id, 0)
}

proof fn lemma_index_of_id(items: Seq<LaunchItem>, id: Seq<char>, i: int)
    requires
        0 <= i <= items.len(),
        forall|j: int| 0 <= j < i ==> #[trigger] items[j].id@ != id,
    ensures
        i <= index_of_id(items, id, i) <= items.len(),
        index_of_id(items, id, i) < items.len() ==> items[index_of_id(items, id, i)].id@ == id,
        index_of_id(items, id, i) == items.len() ==> !has_id(items, id),
    decreases items.len() - i,
{
    if i < items.len() && items[i].id@ != id {
        lemma_index_of_id(items, id, i + 1);
    }
}

/// The index of the first item whose id is `id`, if any.
pub fn find_item(items: &[LaunchItem], id: &str) -> (r: Option<usize>)
    ensures
        match r {
            Some(k) => k == item_index(items@, id@) && k < items@.len() && items@[k as int].id@
                == id@,
            None => item_index(items@, id@) == items@.len() && !has_id(items@, id@),
        },
{
    let n = items.len();
    for i in 0..n
        invariant
            n == items@.len(),
            index_of_id(items@, id@, 0) == index_of_id(items@, id@, i as int),
            forall|j: int| 0 <= j < i ==> #[trigger] items@[j].id@ != id@,
    {
        if str_eq(items[i].id.as_str(), id) {
            return Some(i);
        }
    }
    proof {
        lemma_index_of_id(items@, id@, n as int);
    }
    None
}

/// The index of the first item whose id is `id`, or the message that no
/// item has that id.
pub fn item_for_id(items: &[LaunchItem], id: &str) -> (r: Result<usize, String>)
    ensures
        has_id(items@, id@) ==> (r matches Ok(k) && k == item_index(items@, id@) && k
            < items@.len()),
        !has_id(items@, id@) ==> (r matches Err(e) && e@ == item_not_found_message()),
{
    match find_item(items, id) {
        Some(k) => {
            proof {
                assert(items@[k as int].id@ == id@);
            }
            Ok(k)
        },
        None => Err(String::from_str("Item not found")),
    }
}

/// `item` switched on or off.
pub open spec fn with_enabled(item: LaunchItem, enabled: bool) -> LaunchItem {
    LaunchItem { enabled: enabled, ..item }
}

/// `item` with a new argument line.
pub open spec fn with_args(item: LaunchItem, args: String) -> LaunchItem {
    LaunchItem { args: args, ..item }
}

/// `item` with a new pause before its launch.
pub open spec fn with_delay(item: LaunchItem, delay_ms: u64) -> LaunchItem {
    LaunchItem { delay_ms: delay_ms, ..item }
}

/// What changing the first item with id `id` by `change` gives: that item
/// changed and the others kept, or a refusal that changes nothing when no
/// item has that id.
pub open spec fn edit_outcome(
    before: Seq<LaunchItem>,
    id: Seq<char>,
    changed: LaunchItem,
    r: Result<(), String>,
    after: Seq<LaunchItem>,
) -> bool {
    let k = item_index(before, id);
    if k < before.len() {
        r is Ok && after == before.update(k, changed)
    } else {
        r matches Err(e) && e@ == item_not_found_message() && after == before
    }
}

/// Switches the first item with id `id` on or off.
pub fn set_enabled(cfg: &mut LaunchConfig, id: &str, enabled: bool) -> (r: Result<(), String>)
    ensures
        edit_outcome(
            old(cfg).items@,
            id@,
            with_enabled(old(cfg).items@[item_index(old(cfg).items@, id@)], enabled),
            r,
            final(cfg).items@,
        ),
        final(cfg).login_delay_ms == old(cfg).login_delay_ms,
        final(cfg).stagger_ms == old(cfg).stagger_ms,
{
    match find_item(&cfg.items, id) {
        None => Err(String::from_str("Item not found")),
        Some(k) => {
            let mut item = cfg.items[k].clone();
            item.enabled = enabled;
            cfg.items.set(k, item);
            Ok(())
        },
    }
}

/// Sets the argument line of the first item with id `id`.
pub fn set_args(cfg: &mut LaunchConfig, id: &str, args: String) -> (r: Result<(), String>)
    ensures
        edit_outcome(
            old(cfg).items@,
            id@,
            with_args(old(cfg).items@[item_index(old(cfg).items@, id@)], args),
            r,
            final(cfg).items@,
        ),
        final(cfg).login_delay_ms == old(cfg).login_delay_ms,
        final(cfg).stagger_ms == old(cfg).stagger_ms,
{
    match find_item(&cfg.items, id) {
        None => Err(String::from_str("Item not found")),
        Some(k) => {
            let mut item = cfg.items[k].clone();
            item.args = args;
            cfg.items.set(k, item);
            Ok(())
        },
    }
}

/// Sets the pause before the first item with id `id`, capped at two
/// minutes.
pub fn set_item_delay(cfg: &mut LaunchConfig, id: &str, delay_ms: u64) -> (r: Result<(), String>)
    ensures
        edit_outcome(
            old(cfg).items@,
            id@,
            with_delay(
                old(cfg).items@[item_index(old(cfg).items@, id@)],
                at_most(delay_ms, max_item_delay()),
            ),
            r,
            final(cfg).items@,
        ),
        final(cfg).login_delay_ms == old(cfg).login_delay_ms,
        final(cfg).stagger_ms == old(cfg).stagger_ms,
{
    match find_item(&cfg.items, id) {
        None => Err(String::from_str("Item not found")),
        Some(k) => {
            let mut item = cfg.items[k].clone();
            item.delay_ms = clamp_item_delay(delay_ms);
            cfg.items.set(k, item);
            Ok(())
        },
    }
}

/// Sets the login pause and the pause between launches, each capped.
pub fn set_delays(cfg: &mut LaunchConfig, login_delay_ms: u64, stagger_ms: u64)
    ensures
        final(cfg).login_delay_ms == at_most(login_delay_ms, max_login_delay()),
        final(cfg).stagger_ms == at_most(stagger_ms, max_stagger()),
        final(cfg).items@ == old(cfg).items@,
{
    let (login, stagger) = clamp_delays(login_delay_ms, stagger_ms);
    cfg.login_delay_ms = login;
    cfg.stagger_ms = stagger;
}

/// `--launch`, the argument that autostart passes at login.
pub open spec fn launch_flag() -> Seq<char> {
    seq!['-', '-', 'l', 'a', 'u', 'n', 'c', 'h']
}

/// Whether the program was started at login to run the launch list: one
/// of its arguments is `--launch`.
pub fn is_launch_mode(args: &[String]) -> (r: bool)
    ensures
        r == exists|i: int| 0 <= i < args@.len() && #[trigger] args@[i]@ == launch_flag(),
{
    let flag = vec!['-', '-', 'l', 'a', 'u', 'n', 'c', 'h'];
    assert(flag@ == launch_flag());
    let n = args.len();
    for i in 0..n
        invariant
            n == args@.len(),
            flag@ == launch_flag(),
            forall|j: int| 0 <= j < i ==> #[trigger] args@[j]@ != launch_flag(),
    {
        if same_chars(&chars_of(args[i].as_str()), &flag) {
            return true;
        }
    }
    false
}

/// After removing an id, no item has it, and every item with another id
/// is still there.
pub proof fn law_removed_id_is_gone(items: Seq<LaunchItem>, id: Seq<char>)
    ensures
        !has_id(without_id(items, id), id),
        forall|i: int|
            0 <= i < items.len() && items[i].id@ != id ==> without_id(items, id).contains(
                #[trigger] items[i],
            ),
    decreases items.len(),
{
    if items.len() > 0 {
        let p = items.drop_last();
        law_removed_id_is_gone(p, id);
        let w = without_id(items, id);
        let wp = without_id(p, id);
        if items.last().id@ != id {
            assert(w == wp.push(items.last()));
            assert(!has_id(w, id)) by {
                if has_id(w, id) {
                    let k = choose|k: int| 0 <= k < w.len() && #[trigger] w[k].id@ == id;
                    if k < wp.len() {
                        assert(wp[k].id@ == id);
                    }
                }
            }
        }
        assert forall|i: int| 0 <= i < items.len() && items[i].id@ != id implies w.contains(
            #[trigger] items[i],
        ) by {
            if i < p.len() {
                assert(items[i] == p[i]);
                let k = choose|k: int| 0 <= k < wp.len() && wp[k] == p[i];
                if items.last().id@ != id {
                    assert(w[k] == wp[k]);
                }
            } else {
                assert(w[w.len() - 1] == items.last());
            }
        }
    }
}

/// An edit changes only the addressed item and keeps the list's length.
pub proof fn law_edit_keeps_others(
    before: Seq<LaunchItem>,
    id: Seq<char>,
    changed: LaunchItem,
    r: Result<(), String>,
    after: Seq<LaunchItem>,
)
    requires
        edit_outcome(before, id, changed, r, after),
    ensures
        after.len() == before.len(),
        forall|j: int| 0 <= j < before.len() && j != item_index(before, id) ==> after[j] == before[j],
        r is Ok ==> after[item_index(before, id)] == changed,
{
    lemma_index_of_id(before, id, 0);
}

/// Capping a capped delay changes nothing.
pub proof fn law_cap_idempotent(x: u64, hi: u64)
    ensures
        at_most(at_most(x, hi), hi) == at_most(x, hi),
        at_most(x, hi) <= hi,
        x <= hi ==> at_most(x, hi) == x,
{
}

/// An address that `validate_url` accepts becomes a web-page item when it
/// is added, whatever the disk and the path rules answer for it.
pub proof fn law_accepted_url_is_web_item(url: Seq<char>, is_dir: bool, ext: Option<Seq<char>>)
    requires
        is_web_address(trim(url)),
    ensures
        kind_rule(trim(trim(url)), is_dir, ext) == ItemKind::Url,
{
    law_trim_idempotent(url);
}
} // verus!
