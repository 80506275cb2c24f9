//! Item icons: which shell query draws an item's icon, which bitmap sizes
//! are taken, and how the drawn bitmaps become data URLs keyed by item id.
use vstd::prelude::*;
use vstd::string::StringExecFns;
use crate::base64::{b64, base64};
use crate::bmp::pixel_bytes;
use crate::config::{ItemKind, LaunchItem};
use crate::text::str_eq;

verus! {

/// `SHGFI_ICON`: ask the shell for an icon handle.
pub const SHGFI_ICON: u32 = 0x0000_0100;

/// `SHGFI_LARGEICON`: ask for the large icon.
pub const SHGFI_LARGEICON: u32 = 0x0000_0000;

/// `SHGFI_USEFILEATTRIBUTES`: describe the file by the given attributes
/// instead of looking at the disk.
pub const SHGFI_USEFILEATTRIBUTES: u32 = 0x0000_0010;

/// `FILE_ATTRIBUTE_NORMAL`
pub const FILE_ATTRIBUTE_NORMAL: u32 = 0x0000_0080;

/// `FILE_ATTRIBUTE_DIRECTORY`
pub const FILE_ATTRIBUTE_DIRECTORY: u32 = 0x0000_0010;

/// The largest icon side, in pixels, that is drawn.
pub const MAX_ICON_SIDE: i32 = 256;

/// The arguments of one shell icon query: the path asked about, the file
/// attributes to assume, and the query flags.
pub struct IconQuery {
    pub path: String,
    pub attributes: u32,
    pub flags: u32,
}

/// The generic file name asked about for a web address.
pub open spec fn web_page_name() -> Seq<char> {
    "webpage.url"@
}

/// The shell query for an item: a web address asks about a generic
/// `.url` file; a folder or file that is on disk is asked about by its
/// path, and one that is not is described by attributes instead.
pub open spec fn icon_query_rule(
    target: Seq<char>,
    kind: ItemKind,
    is_dir: bool,
    exists: bool,
) -> (Seq<char>, u32, u32) {
    let on_disk = SHGFI_ICON | SHGFI_LARGEICON;
    let by_attributes = SHGFI_ICON | SHGFI_LARGEICON | SHGFI_USEFILEATTRIBUTES;
    match kind {
        ItemKind::Url => (web_page_name(), FILE_ATTRIBUTE_NORMAL, by_attributes),
        ItemKind::Folder => if is_dir {
            (target, 0, on_disk)
        } else {
            (target, FILE_ATTRIBUTE_DIRECTORY, by_attributes)
        },
        _ => if exists {
            (target, 0, on_disk)
        } else {
            (target, FILE_ATTRIBUTE_NORMAL, by_attributes)
        },
    }
}

/// The shell query that draws the icon of an item with this target and
/// kind, given whether the target is a directory and whether it exists.
pub fn icon_query(target: &str, kind: ItemKind, is_dir: bool, exists: bool) -> (r: IconQuery)
    ensures
        (r.path@, r.attributes, r.flags) == icon_query_rule(target@, kind, is_dir, exists),
{
    let on_disk = SHGFI_ICON | SHGFI_LARGEICON;
    let by_attributes = SHGFI_ICON | SHGFI_LARGEICON | SHGFI_USEFILEATTRIBUTES;
    match kind {
        ItemKind::Url => IconQuery {
            path: String::from_str("webpage.url"),
            attributes: FILE_ATTRIBUTE_NORMAL,
            flags: by_attributes,
        },
        ItemKind::Folder => if is_dir {
            IconQuery { path: String::from_str(target), attributes: 0, flags: on_disk }
        } else {
            IconQuery {
                path: String::from_str(target),
                attributes: FILE_ATTRIBUTE_DIRECTORY,
                flags: by_attributes,
            }
        },
        _ => if exists {
            IconQuery { path: String::from_str(target), attributes: 0, flags: on_disk }
        } else {
            IconQuery {
                path: String::from_str(target),
                attributes: FILE_ATTRIBUTE_NORMAL,
                flags: by_attributes,
            }
        },
    }
}

/// The size of an icon bitmap that is drawn, and the bytes its 32-bit
/// pixels take.
pub struct IconSize {
    pub width: i32,
    pub height: i32,
    pub pixel_bytes: usize,
}

/// The bitmap size taken for a bitmap whose height may be negative (a
/// top-down bitmap): the height's magnitude, when both sides are between
/// 1 and 256 pixels.
pub open spec fn icon_size_rule(width: int, height: int) -> Option<(int, int)> {
    let h = if height < 0 {
        -height
    } else {
        height
    };
    if width <= 0 || h <= 0 || width > 256 || h > 256 {
        None
    } else {
        Some((width, h))
    }
}

/// The size of the icon drawn from a bitmap of `width` by `height`
/// pixels, or `None` when the bitmap is empty or larger than 256 pixels a
/// side.
pub fn icon_dimensions(width: i32, height: i32) -> (r: Option<IconSize>)
    requires
        height != i32::MIN,
    ensures
        match icon_size_rule(width as int, height as int) {
            Some((w, h)) => r matches Some(s) && s.width == w && s.height == h && s.pixel_bytes
                == pixel_bytes(w, h),
            None => r is None,
        },
{
    let h = if height < 0 {
        -height
    } else {
        height
    };
    if width <= 0 || h <= 0 || width > MAX_ICON_SIDE || h > MAX_ICON_SIDE {
        return None;
    }
    assert(0 <= width * h * 4 <= 256 * 256 * 4) by (nonlinear_arith)
        requires
            0 < width <= 256,
            0 < h <= 256,
    ;
    assert((width * 4) * h == width * h * 4) by (nonlinear_arith);
    Some(IconSize { width, height: h, pixel_bytes: (width * h * 4) as usize })
}

/// `data:image/bmp;base64,`
pub open spec fn data_url_prefix() -> Seq<char> {
    "data:image/bmp;base64,"@
}

/// The data URL of a BMP file.
pub open spec fn data_url_of(bmp: Seq<u8>) -> Seq<char> {
    data_url_prefix() + base64(bmp)
}

/// The `data:` URL that shows the BMP file `bmp`.
pub fn data_url(bmp: &[u8]) -> (r: String)
    ensures
        r@ == data_url_of(bmp@),
{
    let mut url = String::from_str("data:image/bmp;base64,");
    let text = b64(bmp);
    url.append(text.as_str());
    url
}

/// The data URL of the bitmap drawn for item `i`.
pub open spec fn drawn_url(icons: Seq<Option<Vec<u8>>>, i: int) -> Seq<char> {
    data_url_of(icons[i]->Some_0@)
}

/// Item `i` had its icon drawn, and no later item with the same id did.
pub open spec fn last_drawn(items: Seq<LaunchItem>, icons: Seq<Option<Vec<u8>>>, i: int) -> bool {
    &&& icons[i] is Some
    &&& forall|j: int|
        i < j < items.len() ==> !(#[trigger] icons[j] is Some && items[j].id@ == items[i].id@)
}

/// The (id, data URL) pairs of the items among the first `k` whose icon
/// was drawn and whose id no later drawn item repeats, in list order.
pub open spec fn icon_entries(items: Seq<LaunchItem>, icons: Seq<Option<Vec<u8>>>, k: int) -> Seq<
    (Seq<char>, Seq<char>),
>
    decreases k,
{
    if k <= 0 {
        seq![]
    } else {
        icon_entries(items, icons, k - 1) + if last_drawn(items, icons, k - 1) {
            seq![(items[k - 1].id@, drawn_url(icons, k - 1))]
        } else {
            seq![]
        }
    }
}

/// The views of a list of (id, URL) pairs.
pub open spec fn pair_views(v: Seq<(String, String)>) -> Seq<(Seq<char>, Seq<char>)> {
    v.map_values(|p: (String, String)| (p.0@, p.1@))
}

/// The data URL of each item whose icon was drawn, keyed by the item's id:
/// one entry per id, the last drawn item with that id winning, in list
/// order; `icons[i]` is the BMP file drawn for `items[i]`, if any. The
/// entries come as a list of pairs, which a caller collects into a map
/// ordered by id.
pub fn for_items(items: &[LaunchItem], icons: &[Option<Vec<u8>>]) -> (r: Vec<(String, String)>)
    requires
        items@.len() == icons@.len(),
    ensures
        pair_views(r@) == icon_entries(items@, icons@, items@.len() as int),
{
    let mut out: Vec<(String, String)> = Vec::new();
    let n = items.len();
    for i in 0..n
        invariant
            n == items@.len() == icons@.len(),
            pair_views(out@) == icon_entries(items@, icons@, i as int),
    {
        let ghost before = out@;
        match &icons[i] {
            Some(bmp) => {
                let mut later = false;
                let mut j = i + 1;
                while j < n
                    invariant
                        i < j <= n == items@.len() == icons@.len(),
                        later == exists|q: int|
                            i < q < j && #[trigger] icons@[q] is Some && items@[q].id@
                                == items@[i as int].id@,
                    decreases n - j,
                {
                    if icons[j].is_some() && str_eq(items[j].id.as_str(), items[i].id.as_str()) {
                        later = true;
                    }
                    j = j + 1;
                }
                if !later {
                    let url = data_url(bmp.as_slice());
                    out.push((items[i].id.clone(), url));
                    assert(last_drawn(items@, icons@, i as int));
                    assert(pair_views(out@) == pair_views(before).push(
                        (items@[i as int].id@, drawn_url(icons@, i as int)),
                    ));
                } else {
                    assert(!last_drawn(items@, icons@, i as int));
                }
            },
            None => {},
        }
    }
    out
}

/// An entry names one of the first `k` items, one whose icon was drawn
/// last for its id, with that item's data URL.
pub open spec fn comes_from_drawn(
    items: Seq<LaunchItem>,
    icons: Seq<Option<Vec<u8>>>,
    k: int,
    e: (Seq<char>, Seq<char>),
) -> bool {
    exists|m: int|
        #![trigger last_drawn(items, icons, m)]
        0 <= m < k && last_drawn(items, icons, m) && e == (
            items[m].id@,
            drawn_url(icons, m),
        )
}

proof fn lemma_icon_entries(items: Seq<LaunchItem>, icons: Seq<Option<Vec<u8>>>, k: int)
    requires
        0 <= k <= items.len() == icons.len(),
    ensures
        forall|m: int|
            0 <= m < k && last_drawn(items, icons, m) ==> icon_entries(items, icons, k).contains(
                (items[m].id@, drawn_url(icons, m)),
            ),
        forall|p: int|
            0 <= p < icon_entries(items, icons, k).len() ==> comes_from_drawn(
                items,
                icons,
                k,
                #[trigger] icon_entries(items, icons, k)[p],
            ),
        forall|p: int, q: int|
            0 <= p < q < icon_entries(items, icons, k).len() ==> (#[trigger] icon_entries(
                items,
                icons,
                k,
            )[p]).0 != (#[trigger] icon_entries(items, icons, k)[q]).0,
    decreases k,
{
    if k == 0 {
        assert(icon_entries(items, icons, 0) =~= Seq::<(Seq<char>, Seq<char>)>::empty());
    } else {
        lemma_icon_entries(items, icons, k - 1);
        let prev = icon_entries(items, icons, k - 1);
        let cur = icon_entries(items, icons, k);
        let e = (items[k - 1].id@, drawn_url(icons, k - 1));
        if last_drawn(items, icons, k - 1) {
            assert(cur == prev.push(e));
        } else {
            assert(cur == prev);
        }
        assert forall|m: int| 0 <= m < k && last_drawn(items, icons, m) implies cur.contains(
            (items[m].id@, drawn_url(icons, m)),
        ) by {
            if m < k - 1 {
                let p = choose|p: int|
                    0 <= p < prev.len() && prev[p] == (items[m].id@, drawn_url(icons, m));
                assert(cur[p] == prev[p]);
            } else {
                assert(cur[prev.len() as int] == e);
            }
        }
        assert forall|p: int| 0 <= p < cur.len() implies comes_from_drawn(
            items,
            icons,
            k,
            #[trigger] cur[p],
        ) by {
            if p < prev.len() {
                assert(cur[p] == prev[p]);
                assert(comes_from_drawn(items, icons, k - 1, prev[p]));
                let m = choose|m: int|
                    #![trigger last_drawn(items, icons, m)]
                    0 <= m < k - 1 && last_drawn(items, icons, m) && prev[p] == (
                        items[m].id@,
                        drawn_url(icons, m),
                    );
                assert(0 <= m < k && last_drawn(items, icons, m));
            } else {
                assert(cur[p] == e);
                assert(last_drawn(items, icons, k - 1));
            }
        }
        assert forall|p: int, q: int| 0 <= p < q < cur.len() implies (#[trigger] cur[p]).0 != (
        #[trigger] cur[q]).0 by {
            if q < prev.len() {
                assert(cur[p] == prev[p]);
                assert(cur[q] == prev[q]);
            } else {
                assert(cur[q] == e);
                assert(cur[p] == prev[p]);
                assert(comes_from_drawn(items, icons, k - 1, prev[p]));
                let m = choose|m: int|
                    #![trigger last_drawn(items, icons, m)]
                    0 <= m < k - 1 && last_drawn(items, icons, m) && prev[p] == (
                        items[m].id@,
                        drawn_url(icons, m),
                    );
                if items[m].id@ == items[k - 1].id@ {
                    assert(icons[k - 1] is Some);
                    assert(!last_drawn(items, icons, m));
                }
            }
        }
    }
}

proof fn lemma_last_drawn_exists(items: Seq<LaunchItem>, icons: Seq<Option<Vec<u8>>>, i: int)
    requires
        0 <= i < items.len() == icons.len(),
        icons[i] is Some,
    ensures
        exists|m: int|
            #![trigger last_drawn(items, icons, m)]
            i <= m < items.len() && last_drawn(items, icons, m) && items[m].id@ == items[i].id@,
    decreases items.len() - i,
{
    if !last_drawn(items, icons, i) {
        let j = choose|j: int|
            i < j < items.len() && #[trigger] icons[j] is Some && items[j].id@ == items[i].id@;
        lemma_last_drawn_exists(items, icons, j);
    }
}

/// The icon entries behave as a map from id to URL: each id appears at
/// most once; an id appears exactly when some item with that id had its
/// icon drawn; and its URL is that of the last such item.
pub proof fn law_icon_entries(items: Seq<LaunchItem>, icons: Seq<Option<Vec<u8>>>)
    requires
        items.len() == icons.len(),
    ensures
        forall|p: int, q: int|
            0 <= p < q < icon_entries(items, icons, items.len() as int).len() ==> (
            #[trigger] icon_entries(items, icons, items.len() as int)[p]).0 != (
            #[trigger] icon_entries(items, icons, items.len() as int)[q]).0,
        forall|i: int|
            0 <= i < items.len() && #[trigger] icons[i] is Some ==> exists|m: int|
                #![trigger last_drawn(items, icons, m)]
                i <= m < items.len() && last_drawn(items, icons, m) && items[m].id@ == items[i].id@
                    && icon_entries(items, icons, items.len() as int).contains(
                    (items[m].id@, drawn_url(icons, m)),
                ),
        forall|p: int|
            0 <= p < icon_entries(items, icons, items.len() as int).len() ==> comes_from_drawn(
                items,
                icons,
                items.len() as int,
                #[trigger] icon_entries(items, icons, items.len() as int)[p],
            ),
{
    let n = items.len() as int;
    lemma_icon_entries(items, icons, n);
    assert forall|i: int| 0 <= i < n && #[trigger] icons[i] is Some implies exists|m: int|
        #![trigger last_drawn(items, icons, m)]
        i <= m < n && last_drawn(items, icons, m) && items[m].id@ == items[i].id@
            && icon_entries(items, icons, n).contains((items[m].id@, drawn_url(icons, m))) by {
        lemma_last_drawn_exists(items, icons, i);
    }
}

/// Every data URL begins with `data:image/bmp;base64,`.
pub proof fn law_data_url_prefix(bmp: Seq<u8>)
    ensures
        data_url_of(bmp).subrange(0, data_url_prefix().len() as int) == data_url_prefix(),
{
    assert(data_url_of(bmp).subrange(0, data_url_prefix().len() as int) =~= data_url_prefix());
}

} // verus!
