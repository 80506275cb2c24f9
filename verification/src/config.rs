//! The launch list: its items, how a dropped path or URL becomes an item,
//! and the delay limits.
use vstd::prelude::*;
use vstd::string::StringExecFns;
use crate::text::{
    chars_of, eq_ignore_ascii_case, has_char, has_prefix, law_trim_idempotent, lower_ascii,
    lowercase_ascii, same_chars, same_chars_ignore_ascii_case, slice_chars, starts_with, string_of,
    trim, trim_chars,
};
use crate::host::{
    backslash_separates, extension_outcome, is_hyphenated_id, new_item_id, opt_view,
    path_extension, path_file_stem, path_is_dir, stem_outcome, known_extension, known_stem,
    lemma_some_extension, lemma_some_stem, some_extension, some_stem, component_start,
    ends_in_extension, last_index_of,
};

verus! {

/// What an item opens.
#[derive(Debug, Clone, Copy, PartialEq, Eq, Structural)]
pub enum ItemKind {
    App,
    File,
    Folder,
    Url,
}

/// One entry of the launch list.
#[derive(Debug)]
pub struct LaunchItem {
    pub id: String,
    pub name: String,
    pub target: String,
    pub args: String,
    pub kind: ItemKind,
    pub enabled: bool,
    pub delay_ms: u64,
}

impl Clone for LaunchItem {
    fn clone(&self) -> (r: Self)
        ensures
            r == *self,
    {
        LaunchItem {
            id: self.id.clone(),
            name: self.name.clone(),
            target: self.target.clone(),
            args: self.args.clone(),
            kind: self.kind,
            enabled: self.enabled,
            delay_ms: self.delay_ms,
        }
    }
}

/// The whole launch list with its timing.
#[derive(Debug)]
pub struct LaunchConfig {
    pub login_delay_ms: u64,
    pub stagger_ms: u64,
    pub items: Vec<LaunchItem>,
}

/// The pause between two launches when nothing else is set.
pub open spec fn spec_default_stagger() -> u64 {
    350
}

/// The pause between two launches when nothing else is set.
pub fn default_stagger() -> (r: u64)
    ensures
        r == spec_default_stagger(),
{
    350
}

impl Default for LaunchConfig {
    fn default() -> (r: Self)
        ensures
            r.login_delay_ms == 0,
            r.stagger_ms == spec_default_stagger(),
            r.items@.len() == 0,
    {
        LaunchConfig { login_delay_ms: 0, stagger_ms: default_stagger(), items: Vec::new() }
    }
}

/// `http://`
pub open spec fn http_prefix() -> Seq<char> {
    seq!['h', 't', 't', 'p', ':', '/', '/']
}

/// `https://`
pub open spec fn https_prefix() -> Seq<char> {
    seq!['h', 't', 't', 'p', 's', ':', '/', '/']
}

/// A target that names a web page.
pub open spec fn is_web_address(t: Seq<char>) -> bool {
    starts_with(t, http_prefix()) || starts_with(t, https_prefix())
}

/// The extensions, in lower case, of files that are started as programs.
pub open spec fn app_extensions() -> Seq<Seq<char>> {
    seq![
        seq!['e', 'x', 'e'],
        seq!['b', 'a', 't'],
        seq!['c', 'm', 'd'],
        seq!['c', 'o', 'm'],
        seq!['l', 'n', 'k'],
        seq!['m', 's', 'c'],
        seq!['p', 's', '1'],
    ]
}

/// An extension, in any ASCII case, of a file started as a program.
pub open spec fn is_app_extension(e: Seq<char>) -> bool {
    app_extensions().contains(lower_ascii(e))
}

/// The kind of a trimmed target, given whether it is a directory on disk
/// and what its path extension is.
pub open spec fn kind_rule(t: Seq<char>, is_dir: bool, ext: Option<Seq<char>>) -> ItemKind {
    if is_web_address(t) {
        ItemKind::Url
    } else if is_dir {
        ItemKind::Folder
    } else {
        match ext {
            Some(e) => if is_app_extension(e) {
                ItemKind::App
            } else {
                ItemKind::File
            },
            None => ItemKind::File,
        }
    }
}

/// `s` without all of its trailing `c`s.
pub open spec fn strip_trailing(s: Seq<char>, c: char) -> Seq<char>
    decreases s.len(),
{
    if s.len() > 0 && s.last() == c {
        strip_trailing(s.drop_last(), c)
    } else {
        s
    }
}

/// The index of the first `c` in `s` at or after `i`, or the length of `s`.
pub open spec fn index_of_from(s: Seq<char>, c: char, i: int) -> int
    decreases s.len() - i,
{
    if i >= s.len() {
        s.len() as int
    } else if s[i] == c {
        i
    } else {
        index_of_from(s, c, i + 1)
    }
}

/// The part of `s` before its first `c` (all of `s` when it has none).
pub open spec fn before_char(s: Seq<char>, c: char) -> Seq<char> {
    s.subrange(0, index_of_from(s, c, 0))
}

/// The display name of a web address: its host, or the trimmed address
/// itself when it has no `http://` or `https://` scheme.
pub open spec fn url_name_rule(target: Seq<char>) -> Seq<char> {
    let t = strip_trailing(trim(target), '/');
    if starts_with(t, https_prefix()) {
        before_char(t.subrange(8, t.len() as int), '/')
    } else if starts_with(t, http_prefix()) {
        before_char(t.subrange(7, t.len() as int), '/')
    } else {
        t
    }
}

/// The display name of a target of the given kind, given the file stem of
/// the trimmed target.
pub open spec fn name_rule(target: Seq<char>, kind: ItemKind, stem: Option<Seq<char>>) -> Seq<
    char,
> {
    if kind == ItemKind::Url {
        url_name_rule(target)
    } else {
        match stem {
            Some(s) => if s.len() > 0 {
                s
            } else {
                trim(target)
            },
            None => trim(target),
        }
    }
}

/// Whether two targets name the same thing: their trimmed texts are equal,
/// ignoring ASCII case when `fold_case` holds (as on Windows).
pub open spec fn target_match(a: Seq<char>, b: Seq<char>, fold_case: bool) -> bool {
    if fold_case {
        eq_ignore_ascii_case(trim(a), trim(b))
    } else {
        trim(a) == trim(b)
    }
}

/// The largest pause before the first launch.
pub open spec fn max_login_delay() -> u64 {
    60_000
}

/// The largest pause between two launches.
pub open spec fn max_stagger() -> u64 {
    5_000
}

/// The largest pause before one item.
pub open spec fn max_item_delay() -> u64 {
    120_000
}

/// `x`, but at most `hi`.
pub open spec fn at_most(x: u64, hi: u64) -> u64 {
    if x <= hi {
        x
    } else {
        hi
    }
}

fn http_chars() -> (r: Vec<char>)
    ensures
        r@ == http_prefix(),
{
    vec!['h', 't', 't', 'p', ':', '/', '/']
}

fn https_chars() -> (r: Vec<char>)
    ensures
        r@ == https_prefix(),
{
    vec!['h', 't', 't', 'p', 's', ':', '/', '/']
}

/// Whether the characters `t` name a web page.
pub fn is_web_chars(t: &[char]) -> (r: bool)
    ensures
        r == is_web_address(t@),
{
    let http = http_chars();
    let https = https_chars();
    has_prefix(t, &http) || has_prefix(t, &https)
}

fn app_extension_list() -> (r: Vec<Vec<char>>)
    ensures
        r@.len() == app_extensions().len(),
        forall|i: int| 0 <= i < r@.len() ==> #[trigger] r@[i]@ == app_extensions()[i],
{
    let r = vec![
        vec!['e', 'x', 'e'],
        vec!['b', 'a', 't'],
        vec!['c', 'm', 'd'],
        vec!['c', 'o', 'm'],
        vec!['l', 'n', 'k'],
        vec!['m', 's', 'c'],
        vec!['p', 's', '1'],
    ];
    r
}

/// Whether `e` is, in any ASCII case, the extension of a file that is
/// started as a program (`exe`, `bat`, `cmd`, `com`, `lnk`, `msc`, `ps1`).
pub fn is_app_extension_chars(e: &[char]) -> (r: bool)
    ensures
        r == is_app_extension(e@),
{
    let lower = lowercase_ascii(e);
    let list = app_extension_list();
    let n = list.len();
    for i in 0..n
        invariant
            n == list@.len() == app_extensions().len(),
            lower@ == lower_ascii(e@),
            forall|k: int| 0 <= k < list@.len() ==> #[trigger] list@[k]@ == app_extensions()[k],
            forall|k: int| 0 <= k < i ==> app_extensions()[k] != lower@,
    {
        if same_chars(&lower, &list[i]) {
            assert(app_extensions()[i as int] == lower_ascii(e@));
            return true;
        }
    }
    assert(!app_extensions().contains(lower_ascii(e@)));
    false
}

/// The kind of `target`, given whether its trimmed text names a directory
/// on disk and what the path extension of its trimmed text is.
pub fn kind_for(target: &str, is_dir: bool, extension: Option<&str>) -> (r: ItemKind)
    ensures
        r == kind_rule(
            trim(target@),
            is_dir,
            match extension {
                Some(e) => Some(e@),
                None => None,
            },
        ),
{
    let t = trim_chars(&chars_of(target));
    if is_web_chars(&t) {
        ItemKind::Url
    } else if is_dir {
        ItemKind::Folder
    } else {
        match extension {
            Some(e) => {
                if is_app_extension_chars(&chars_of(e)) {
                    ItemKind::App
                } else {
                    ItemKind::File
                }
            },
            None => ItemKind::File,
        }
    }
}

/// Guesses what `target` opens: a web page when its trimmed text begins
/// with `http://` or `https://`, else a folder when the disk holds a
/// directory there, else a program when its extension is one of
/// `kind_rule`'s, else a file.
pub fn infer_kind(target: &str) -> (r: ItemKind)
    ensures
        exists|is_dir: bool, ext: Option<Seq<char>>|
            extension_outcome(trim(target@), ext) && r == kind_rule(trim(target@), is_dir, ext),
        (r == ItemKind::Url) == is_web_address(trim(target@)),
        r == ItemKind::App ==> has_char(trim(target@), '.'),
        r != ItemKind::Folder ==> (known_extension(trim(target@)) matches Some(e) ==> r
            == kind_rule(trim(target@), false, e)),
{
    let t = string_of(&trim_chars(&chars_of(target)));
    let tc = chars_of(t.as_str());
    if is_web_chars(&tc) {
        proof {
            let ghost ext = some_extension(trim(target@));
            lemma_some_extension(trim(target@));
            assert(extension_outcome(trim(target@), ext));
            assert(ItemKind::Url == kind_rule(trim(target@), false, ext));
        }
        return ItemKind::Url;
    }
    let is_dir = path_is_dir(t.as_str());
    let ext = path_extension(t.as_str());
    let r = match &ext {
        Some(e) => kind_for(t.as_str(), is_dir, Some(e.as_str())),
        None => kind_for(t.as_str(), is_dir, None),
    };
    proof {
        law_trim_idempotent(target@);
        assert(extension_outcome(trim(target@), opt_view(ext)));
        assert(r == kind_rule(trim(target@), is_dir, opt_view(ext)));
    }
    r
}

/// `s` without all of its trailing `c`s.
pub fn strip_trailing_chars(s: &[char], c: char) -> (r: Vec<char>)
    ensures
        r@ == strip_trailing(s@, c),
{
    let mut j = s.len();
    assert(s@.subrange(0, j as int) == s@);
    while j > 0 && s[j - 1] == c
        invariant
            j <= s@.len(),
            strip_trailing(s@, c) == strip_trailing(s@.subrange(0, j as int), c),
        decreases j,
    {
        assert(s@.subrange(0, j as int).drop_last() == s@.subrange(0, j - 1));
        j = j - 1;
    }
    slice_chars(s, 0, j)
}

/// The part of `s` before its first `c`.
pub fn before_first(s: &[char], c: char) -> (r: Vec<char>)
    ensures
        r@ == before_char(s@, c),
{
    let n = s.len();
    let mut i: usize = 0;
    while i < n && s[i] != c
        invariant
            i <= n == s@.len(),
            index_of_from(s@, c, 0) == index_of_from(s@, c, i as int),
        decreases n - i,
    {
        i = i + 1;
    }
    slice_chars(s, 0, i)
}

/// The display name of a web address: the host part of an `http://` or
/// `https://` address, or the whole trimmed address otherwise.
pub fn url_name(target: &str) -> (r: String)
    ensures
        r@ == url_name_rule(target@),
{
    let t = strip_trailing_chars(&trim_chars(&chars_of(target)), '/');
    let https = https_chars();
    let http = http_chars();
    if has_prefix(&t, &https) {
        let rest = slice_chars(&t, 8, t.len());
        string_of(&before_first(&rest, '/'))
    } else if has_prefix(&t, &http) {
        let rest = slice_chars(&t, 7, t.len());
        string_of(&before_first(&rest, '/'))
    } else {
        string_of(&t)
    }
}

/// The display name of `target` of the given kind, given the file stem of
/// its trimmed text: the host of a web address, else the stem when it is
/// not empty, else the trimmed target.
pub fn name_for(target: &str, kind: ItemKind, stem: Option<&str>) -> (r: String)
    ensures
        r@ == name_rule(
            target@,
            kind,
            match stem {
                Some(s) => Some(s@),
                None => None,
            },
        ),
{
    match kind {
        ItemKind::Url => url_name(target),
        _ => match stem {
            Some(s) => {
                let sc = chars_of(s);
                if sc.len() > 0 {
                    string_of(&sc)
                } else {
                    string_of(&trim_chars(&chars_of(target)))
                }
            },
            None => string_of(&trim_chars(&chars_of(target))),
        },
    }
}

/// The display name of `target`: for a web address its host, else the
/// file stem of the trimmed target when it has a non-empty one, else the
/// trimmed target.
pub fn infer_name(target: &str, kind: &ItemKind) -> (r: String)
    ensures
        exists|stem: Option<Seq<char>>|
            stem_outcome(trim(target@), stem) && r@ == name_rule(target@, *kind, stem),
        *kind == ItemKind::Url ==> r@ == url_name_rule(target@),
        known_stem(trim(target@)) matches Some(s) ==> r@ == name_rule(target@, *kind, s),
        *kind != ItemKind::Url && ends_in_extension(trim(target@)) ==> names_stem(trim(target@), r@),
{
    match kind {
        ItemKind::Url => {
            let r = url_name(target);
            proof {
                lemma_some_stem(trim(target@));
                assert(stem_outcome(trim(target@), some_stem(trim(target@))));
            }
            r
        },
        _ => {
            let t = string_of(&trim_chars(&chars_of(target)));
            let stem = path_file_stem(t.as_str());
            let r = match &stem {
                Some(s) => name_for(target, *kind, Some(s.as_str())),
                None => name_for(target, *kind, None),
            };
            assert(stem_outcome(trim(target@), opt_view(stem)));
            proof {
                if ends_in_extension(trim(target@)) {
                    law_name_drops_extension(target@, *kind, opt_view(stem));
                }
            }
            r
        },
    }
}

/// `name` is the final component of the path `t` up to its last `.`: a
/// non-empty part of `t` that begins where a component can begin and ends
/// right before that `.`, so it leaves out the `.` and the extension.
pub open spec fn names_stem(t: Seq<char>, name: Seq<char>) -> bool {
    exists|j: int|
        #[trigger] component_start(t, j) && 0 <= j < last_index_of(t, '.') && name == t.subrange(
            j,
            last_index_of(t, '.'),
        )
}

/// A target that is no web address and ends in an extension is named by
/// its final component without the extension: the name is not empty, is
/// shorter than the trimmed target, and stops right before the last `.`.
pub proof fn law_name_drops_extension(target: Seq<char>, kind: ItemKind, stem: Option<Seq<char>>)
    requires
        kind != ItemKind::Url,
        stem_outcome(trim(target), stem),
        ends_in_extension(trim(target)),
    ensures
        names_stem(trim(target), name_rule(target, kind, stem)),
        0 < name_rule(target, kind, stem).len() < trim(target).len(),
{
    let t = trim(target);
    let k = last_index_of(t, '.');
    let x = stem->Some_0;
    let j = choose|j: int| #[trigger] component_start(t, j) && 0 <= j < k && x == t.subrange(j, k);
    assert(x.len() == k - j);
    assert(name_rule(target, kind, stem) == x);
}

/// Whether two targets name the same thing: their trimmed texts are equal,
/// ignoring ASCII case when `fold_case` holds.
pub fn targets_match(a: &str, b: &str, fold_case: bool) -> (r: bool)
    ensures
        r == target_match(a@, b@, fold_case),
{
    let ta = trim_chars(&chars_of(a));
    let tb = trim_chars(&chars_of(b));
    if fold_case {
        same_chars_ignore_ascii_case(&ta, &tb)
    } else {
        same_chars(&ta, &tb)
    }
}

/// Whether two targets name the same thing on this platform: on Windows
/// their trimmed texts are equal ignoring ASCII case, elsewhere they are
/// equal.
pub fn same_target(a: &str, b: &str) -> (r: bool)
    ensures
        exists|fold_case: bool| r == target_match(a@, b@, fold_case),
        trim(a@) == trim(b@) ==> r,
        r ==> eq_ignore_ascii_case(trim(a@), trim(b@)),
{
    let fold = backslash_separates();
    targets_match(a, b, fold)
}

/// What `new_item` promises of the item it makes for `target`.
pub open spec fn fresh_item(item: LaunchItem, target: Seq<char>) -> bool {
    &&& is_hyphenated_id(item.id@)
    &&& item.target@ == trim(target)
    &&& item.args@.len() == 0
    &&& item.enabled
    &&& item.delay_ms == 0
    &&& exists|is_dir: bool, ext: Option<Seq<char>>, stem: Option<Seq<char>>|
        {
            &&& extension_outcome(trim(target), ext)
            &&& stem_outcome(trim(target), stem)
            &&& item.kind == kind_rule(trim(target), is_dir, ext)
            &&& item.name@ == name_rule(target, item.kind, stem)
        }
}

/// A new, enabled item for `target`, with a fresh random UUID as id, its kind and
/// name guessed from the target, no arguments and no delay.
pub fn new_item(target: String) -> (r: LaunchItem)
    ensures
        fresh_item(r, target@),
        (r.kind == ItemKind::Url) == is_web_address(trim(target@)),
        r.kind != ItemKind::Folder ==> (known_extension(trim(target@)) matches Some(e) ==> r.kind
            == kind_rule(trim(target@), false, e)),
        known_stem(trim(target@)) matches Some(s) ==> r.name@ == name_rule(target@, r.kind, s),
{
    let kind = infer_kind(target.as_str());
    let name = infer_name(target.as_str(), &kind);
    let t = string_of(&trim_chars(&chars_of(target.as_str())));
    LaunchItem {
        id: new_item_id(),
        name,
        target: t,
        args: String::new(),
        kind,
        enabled: true,
        delay_ms: 0,
    }
}

/// The message for an empty target.
pub open spec fn empty_target_message() -> Seq<char> {
    "Empty target"@
}

/// The message for a target that is already listed.
pub open spec fn duplicate_target_message() -> Seq<char> {
    "Already in the list"@
}

/// Some item's target matches `t`.
pub open spec fn is_listed(items: Seq<LaunchItem>, t: Seq<char>, fold_case: bool) -> bool {
    exists|i: int| 0 <= i < items.len() && target_match(#[trigger] items[i].target@, t, fold_case)
}

/// What adding `target` to a list `items` gives, when targets are matched
/// with or without case folding as `fold_case` says: an empty target and
/// a listed one are refused with their messages and change nothing; any
/// other is added at the end as a fresh item.
pub open spec fn add_target_outcome(
    items: Seq<LaunchItem>,
    target: Seq<char>,
    fold_case: bool,
    r: Result<LaunchItem, String>,
    after: Seq<LaunchItem>,
) -> bool {
    let t = trim(target);
    if t.len() == 0 {
        r matches Err(e) && e@ == empty_target_message() && after == items
    } else if is_listed(items, t, fold_case) {
        r matches Err(e) && e@ == duplicate_target_message() && after == items
    } else {
        r matches Ok(item) && fresh_item(item, t) && after == items.push(item)
    }
}

/// Adds `target` to the list unless it is empty or already listed, with
/// targets matched ignoring ASCII case when `fold_case` holds, and gives
/// back the new item.
pub fn add_target_with(cfg: &mut LaunchConfig, target: String, fold_case: bool) -> (r: Result<
    LaunchItem,
    String,
>)
    ensures
        add_target_outcome(old(cfg).items@, target@, fold_case, r, final(cfg).items@),
        final(cfg).login_delay_ms == old(cfg).login_delay_ms,
        final(cfg).stagger_ms == old(cfg).stagger_ms,
{
    let tc = trim_chars(&chars_of(target.as_str()));
    if tc.len() == 0 {
        let e = String::from_str("Empty target");
        return Err(e);
    }
    let t = string_of(&tc);
    let n = cfg.items.len();
    for i in 0..n
        invariant
            n == cfg.items@.len(),
            *cfg == *old(cfg),
            t@ == trim(target@),
            t@.len() > 0,
            forall|k: int|
                0 <= k < i ==> !target_match(#[trigger] cfg.items@[k].target@, t@, fold_case),
    {
        if targets_match(cfg.items[i].target.as_str(), t.as_str(), fold_case) {
            let e = String::from_str("Already in the list");
            assert(is_listed(old(cfg).items@, trim(target@), fold_case));
            return Err(e);
        }
    }
    proof {
        law_trim_idempotent(target@);
    }
    let item = new_item(t);
    cfg.items.push(item.clone());
    Ok(item)
}

/// Adds `target` to the list unless it is empty or already listed (as
/// `same_target` judges on this platform), and gives back the new item.
pub fn add_target(cfg: &mut LaunchConfig, target: String) -> (r: Result<LaunchItem, String>)
    ensures
        exists|fold_case: bool|
            add_target_outcome(old(cfg).items@, target@, fold_case, r, final(cfg).items@),
        final(cfg).login_delay_ms == old(cfg).login_delay_ms,
        final(cfg).stagger_ms == old(cfg).stagger_ms,
{
    let fold = backslash_separates();
    add_target_with(cfg, target, fold)
}

/// The login pause capped at one minute and the pause between launches
/// capped at five seconds.
pub fn clamp_delays(login_delay_ms: u64, stagger_ms: u64) -> (r: (u64, u64))
    ensures
        r.0 == at_most(login_delay_ms, max_login_delay()),
        r.1 == at_most(stagger_ms, max_stagger()),
{
    (
        if login_delay_ms <= 60_000 { login_delay_ms } else { 60_000 },
        if stagger_ms <= 5_000 { stagger_ms } else { 5_000 },
    )
}

/// An item's own pause capped at two minutes.
pub fn clamp_item_delay(delay_ms: u64) -> (r: u64)
    ensures
        r == at_most(delay_ms, max_item_delay()),
{
    if delay_ms <= 120_000 { delay_ms } else { 120_000 }
}

/// Whether a stored configuration text holds nothing but white space.
pub fn is_blank(raw: &str) -> (r: bool)
    ensures
        r == (trim(raw@).len() == 0),
{
    trim_chars(&chars_of(raw)).len() == 0
}

/// No two items of the list have matching targets.
pub open spec fn distinct_targets(items: Seq<LaunchItem>, fold_case: bool) -> bool {
    forall|i: int, j: int|
        0 <= i < j < items.len() ==> !target_match(
            #[trigger] items[i].target@,
            #[trigger] items[j].target@,
            fold_case,
        )
}

/// Every target matches itself, with or without case folding.
pub proof fn law_target_match_reflexive(a: Seq<char>, fold_case: bool)
    ensures
        target_match(a, a, fold_case),
{
}

/// Whether two targets match does not depend on their order.
pub proof fn law_target_match_symmetric(a: Seq<char>, b: Seq<char>, fold_case: bool)
    ensures
        target_match(a, b, fold_case) == target_match(b, a, fold_case),
{
}

/// A target that was just added is refused when it is added again, and the
/// second attempt leaves the list as it was, however targets are matched.
pub proof fn law_second_add_is_refused(
    items: Seq<LaunchItem>,
    target: Seq<char>,
    fold1: bool,
    r1: Result<LaunchItem, String>,
    after1: Seq<LaunchItem>,
    fold2: bool,
    r2: Result<LaunchItem, String>,
    after2: Seq<LaunchItem>,
)
    requires
        add_target_outcome(items, target, fold1, r1, after1),
        r1 is Ok,
        add_target_outcome(after1, target, fold2, r2, after2),
    ensures
        r2 matches Err(e) && e@ == duplicate_target_message(),
        after2 == after1,
{
    let t = trim(target);
    law_trim_idempotent(target);
    let item = r1->Ok_0;
    assert(after1[items.len() as int] == item);
    assert(item.target@ == t);
    assert(target_match(after1[items.len() as int].target@, t, fold2));
    assert(is_listed(after1, t, fold2));
}

/// Adding a target keeps a list free of matching targets.
pub proof fn law_add_keeps_targets_distinct(
    items: Seq<LaunchItem>,
    target: Seq<char>,
    fold_case: bool,
    r: Result<LaunchItem, String>,
    after: Seq<LaunchItem>,
)
    requires
        distinct_targets(items, fold_case),
        add_target_outcome(items, target, fold_case, r, after),
    ensures
        distinct_targets(after, fold_case),
{
    let t = trim(target);
    if t.len() > 0 && !is_listed(items, t, fold_case) {
        let item = r->Ok_0;
        law_trim_idempotent(target);
        assert forall|i: int, j: int| 0 <= i < j < after.len() implies !target_match(
            #[trigger] after[i].target@,
            #[trigger] after[j].target@,
            fold_case,
        ) by {
            if j == items.len() {
                assert(after[i] == items[i]);
                assert(after[j].target@ == t);
                if target_match(after[i].target@, after[j].target@, fold_case) {
                    assert(target_match(items[i].target@, t, fold_case));
                    assert(is_listed(items, t, fold_case));
                }
            } else {
                assert(after[i] == items[i]);
                assert(after[j] == items[j]);
            }
        }
    }
}

/// The extensions of programs are exactly `exe`, `bat`, `cmd`, `com`,
/// `lnk`, `msc` and `ps1`, in any ASCII case: a target that is neither a
/// web address nor a directory is a program when its extension is one of
/// them, and a file otherwise.
pub proof fn law_program_extensions(t: Seq<char>, e: Seq<char>)
    ensures
        is_app_extension(e) <==> {
            let l = lower_ascii(e);
            ||| l == seq!['e', 'x', 'e']
            ||| l == seq!['b', 'a', 't']
            ||| l == seq!['c', 'm', 'd']
            ||| l == seq!['c', 'o', 'm']
            ||| l == seq!['l', 'n', 'k']
            ||| l == seq!['m', 's', 'c']
            ||| l == seq!['p', 's', '1']
        },
        !is_web_address(t) ==> (kind_rule(t, false, Some(e)) == ItemKind::App
            <==> is_app_extension(e)),
        !is_web_address(t) ==> (kind_rule(t, false, Some(e)) == ItemKind::File
            <==> !is_app_extension(e)),
{
    let l = lower_ascii(e);
    let xs = app_extensions();
    if xs.contains(l) {
        let i = choose|i: int| 0 <= i < xs.len() && xs[i] == l;
        assert(0 <= i < xs.len());
    }
    assert(xs[0] == seq!['e', 'x', 'e']);
    assert(xs[1] == seq!['b', 'a', 't']);
    assert(xs[2] == seq!['c', 'm', 'd']);
    assert(xs[3] == seq!['c', 'o', 'm']);
    assert(xs[4] == seq!['l', 'n', 'k']);
    assert(xs[5] == seq!['m', 's', 'c']);
    assert(xs[6] == seq!['p', 's', '1']);
}
} // verus!
