//! The directory tree viewer: which entries show, what is read, sizes and
//! counts, and the rows it prints.
//!
//! The program reads the file system; this module decides. A directory
//! listing is handed over as `DirItem`s, each with the metadata the viewer
//! looks at and, where the viewer reads into a directory, that directory's
//! own listing (`reads_children` says where).

use vstd::prelude::*;
use crate::size::{human_size, spec_human_size};
use crate::sort::{appears, law_stable_sort_exists, stable_sort_of, stable_sort_order};
use crate::text::{
    flatten_segments, lemma_flatten_append, seq_le,
    first_occurrence, first_occurrence_exec, is_prefix, lemma_first_occurrence, lemma_non_empty_elements, occurs_at, starts_with_chars, pad_left, pad_left_chars, push_all, segment_views, slice_chars, split, trim, Segment,
    any_pattern_in, any_pattern_in_exec, chars_of, contains, filter_patterns_chars, spec_filter_patterns,
    string_of, views,
};

verus! {

/// The viewer's options.
pub struct TreeOptions {
    /// Show dotfiles.
    pub all: bool,
    /// Exact names to hide.
    pub hide_name: Vec<String>,
    /// Maximum depth shown.
    pub depth: usize,
    pub file_count: bool,
    pub file_sizes: bool,
    pub folder_sizes: bool,
    pub no_sort: bool,
    pub folders_only: bool,
    pub clean: bool,
    /// Comma-separated name patterns.
    pub filter: Option<String>,
}

/// One entry of a directory listing.
pub struct DirItem {
    /// The file name (lossily decoded).
    pub name: String,
    /// The file name's bytes as the system gives them; a listing is sorted
    /// by these. For a name that is valid UTF-8 they are `name`'s UTF-8
    /// encoding.
    pub raw_name: Vec<u8>,
    /// The listing says it is a directory.
    pub type_is_dir: bool,
    /// The listing says it is a symbolic link.
    pub is_symlink: bool,
    /// Its metadata says it is a directory.
    pub is_dir: bool,
    /// Its metadata says it is a regular file.
    pub is_file: bool,
    /// Its length in bytes.
    pub len: u64,
    /// It is an executable file.
    pub is_exec: bool,
    /// Where a link points, when the link could be read.
    pub link_target: Option<String>,
    /// Its own listing, when the viewer reads into it.
    pub children: Option<Vec<DirItem>>,
}

/// One node of the tree the viewer prints.
pub struct TreeEntry {
    pub name: String,
    pub should_print: bool,
    pub is_dir: bool,
    pub is_exec: bool,
    pub is_hidden: bool,
    pub is_symlink: bool,
    pub symlink_target: Option<String>,
    pub file_size: u64,
    pub total_size: u64,
    pub child_count: usize,
    pub children: Vec<TreeEntry>,
}

/// The mathematical content of a `TreeEntry`.
pub struct TreeNode {
    pub name: Seq<char>,
    pub should_print: bool,
    pub is_dir: bool,
    pub is_exec: bool,
    pub is_hidden: bool,
    pub is_symlink: bool,
    pub symlink_target: Option<Seq<char>>,
    pub file_size: nat,
    pub total_size: nat,
    pub child_count: nat,
    pub children: Seq<TreeNode>,
}

pub open spec fn empty_node() -> TreeNode {
    TreeNode {
        name: Seq::empty(),
        should_print: false,
        is_dir: false,
        is_exec: false,
        is_hidden: false,
        is_symlink: false,
        symlink_target: None,
        file_size: 0,
        total_size: 0,
        child_count: 0,
        children: Seq::empty(),
    }
}

pub open spec fn entry_view(e: TreeEntry) -> TreeNode
    decreases e,
{
    TreeNode {
        name: e.name@,
        should_print: e.should_print,
        is_dir: e.is_dir,
        is_exec: e.is_exec,
        is_hidden: e.is_hidden,
        is_symlink: e.is_symlink,
        symlink_target: match e.symlink_target {
            Some(t) => Some(t@),
            None => None,
        },
        file_size: e.file_size as nat,
        total_size: e.total_size as nat,
        child_count: e.child_count as nat,
        children: Seq::new(
            e.children.len() as nat,
            |i: int|
                if 0 <= i < e.children.len() {
                    entry_view(e.children@[i])
                } else {
                    empty_node()
                },
        ),
    }
}

pub open spec fn entry_views(v: Seq<TreeEntry>) -> Seq<TreeNode> {
    v.map_values(|e: TreeEntry| entry_view(e))
}

pub open spec fn starts_with_dot(name: Seq<char>) -> bool {
    name.len() > 0 && name[0] == '.'
}

/// The name is one of the `--hide-name` names, which `--all` overrides.
pub open spec fn hidden_by_name(name: Seq<char>, o: TreeOptions) -> bool {
    &&& !o.all
    &&& exists|i: int| 0 <= i < o.hide_name.len() && (#[trigger] o.hide_name@[i])@ == name
}

/// Shown unless a filter decides: not a dotfile (without `--all`), not a
/// link, and a directory when only folders are shown.
pub open spec fn base_visible(it: DirItem, o: TreeOptions) -> bool {
    &&& !(starts_with_dot(it.name@) && !o.all)
    &&& !it.is_symlink
    &&& !(o.folders_only && !it.type_is_dir)
}

/// Whether the entry itself is to be printed: with a filter, when it is
/// base-visible and its name contains a pattern; without, when it is
/// base-visible and not hidden by name.
pub open spec fn print_flag(it: DirItem, o: TreeOptions) -> bool {
    match o.filter {
        Some(f) => {
            let pats = spec_filter_patterns(f@);
            pats.len() > 0 && base_visible(it, o) && any_pattern_in(it.name@, pats)
        },
        None => base_visible(it, o) && !hidden_by_name(it.name@, o),
    }
}

/// Whether the viewer reads a directory's listing.
pub open spec fn reads_children(should_print: bool, hidden: bool, depth: nat, o: TreeOptions) -> bool {
    if hidden {
        o.filter is Some || o.folder_sizes || o.file_count
    } else {
        o.file_count || o.folder_sizes || (should_print && depth + 1 < o.depth) || o.filter is Some
    }
}

/// Whether the viewer goes on into the entries of a listing it read.
pub open spec fn recurses(should_print: bool, depth: nat, o: TreeOptions) -> bool {
    o.folder_sizes || (should_print && depth + 1 < o.depth) || o.filter is Some
}

/// Whether those entries are kept for printing.
pub open spec fn stores(should_print: bool, depth: nat, o: TreeOptions) -> bool {
    depth + 1 < o.depth && (should_print || o.filter is Some)
}

pub open spec fn listing(it: DirItem) -> Seq<DirItem> {
    match it.children {
        Some(c) => c@,
        None => Seq::empty(),
    }
}

/// A file name's bytes, each taken as the character of the same number, so
/// that characters compare as the bytes do.
pub open spec fn byte_key(b: Seq<u8>) -> Seq<char> {
    b.map_values(|x: u8| x as char)
}

pub open spec fn item_keys(ls: Seq<DirItem>) -> Seq<Seq<char>> {
    ls.map_values(|c: DirItem| byte_key(c.raw_name@))
}

/// The order in which a listing is processed: by the bytes of the file
/// names (stable), or as listed.
pub open spec fn listing_order(ls: Seq<DirItem>, o: TreeOptions) -> Seq<usize> {
    if o.no_sort {
        Seq::new(ls.len(), |i: int| i as usize)
    } else {
        stable_sort_of(item_keys(ls))
    }
}

pub open spec fn sum_totals(s: Seq<TreeNode>) -> nat
    decreases s.len(),
{
    if s.len() == 0 {
        0
    } else {
        sum_totals(s.drop_last()) + s.last().total_size
    }
}

pub open spec fn any_printed(s: Seq<TreeNode>) -> bool {
    exists|i: int| 0 <= i < s.len() && (#[trigger] s[i]).should_print
}

pub open spec fn unknown() -> Seq<char> {
    seq!['u', 'n', 'k', 'n', 'o', 'w', 'n']
}

/// The nodes built for the entries of a listing, in the order `perm`.
pub open spec fn child_nodes(ls: Seq<DirItem>, perm: Seq<usize>, depth: nat, o: TreeOptions) -> Seq<
    TreeNode,
>
    decreases ls,
{
    Seq::new(
        ls.len(),
        |i: int|
            if 0 <= i < perm.len() && 0 <= perm[i] < ls.len() {
                spec_build_entry(
                    ls[perm[i] as int],
                    print_flag(ls[perm[i] as int], o),
                    hidden_by_name(ls[perm[i] as int].name@, o),
                    depth,
                    o,
                )
            } else {
                empty_node()
            },
    )
}

/// The node built for an entry (`should_print` and `hidden` as the listing
/// decided them), at `depth`: a directory whose listing is read counts its
/// entries; when the viewer goes on into them their sizes add to its total,
/// and they are kept as children when they may be printed; a directory is
/// printed when it is itself, or (with a filter) when a kept child is.
pub open spec fn spec_build_entry(
    it: DirItem,
    should_print: bool,
    hidden: bool,
    depth: nat,
    o: TreeOptions,
) -> TreeNode
    decreases it,
{
    let fs: nat = if it.is_file {
        it.len as nat
    } else {
        0
    };
    let reads = it.is_dir && reads_children(should_print, hidden, depth, o);
    let ls = listing(it);
    let rec = reads && recurses(should_print, depth, o);
    let kids = if rec {
        match it.children {
            Some(c) => child_nodes(c@, listing_order(c@, o), depth + 1, o),
            None => Seq::empty(),
        }
    } else {
        Seq::empty()
    };
    let stored = if rec && stores(should_print, depth, o) {
        kids
    } else {
        Seq::empty()
    };
    TreeNode {
        name: it.name@,
        should_print: if it.is_dir {
            if !should_print && o.filter is None {
                false
            } else {
                should_print || any_printed(stored)
            }
        } else {
            should_print
        },
        is_dir: it.is_dir,
        is_exec: it.is_exec,
        is_hidden: starts_with_dot(it.name@),
        is_symlink: it.is_symlink,
        symlink_target: if it.is_symlink {
            Some(
                match it.link_target {
                    Some(t) => t@,
                    None => unknown(),
                },
            )
        } else {
            None
        },
        file_size: fs,
        total_size: fs + sum_totals(kids),
        child_count: if reads {
            ls.len()
        } else {
            0
        },
        children: stored,
    }
}

/// The tree built from a directory's listing at `depth`: nothing at or past
/// the maximum depth, else one node per entry, in listing order.
pub open spec fn spec_build_tree(ls: Seq<DirItem>, depth: nat, o: TreeOptions) -> Seq<TreeNode> {
    if depth >= o.depth {
        Seq::empty()
    } else {
        child_nodes(ls, listing_order(ls, o), depth, o)
    }
}

} // verus!

verus! {

/// The filter's patterns, as the options hold them.
pub open spec fn patterns_of(o: TreeOptions, pats: Seq<Seq<char>>) -> bool {
    o.filter matches Some(f) ==> pats == spec_filter_patterns(f@)
}

fn option_patterns(o: &TreeOptions) -> (pats: Vec<Vec<char>>)
    ensures
        patterns_of(*o, views(pats@)),
        o.filter is None ==> pats.len() == 0,
{
    match &o.filter {
        Some(f) => {
            let fv = chars_of(f.as_str());
            filter_patterns_chars(&fv)
        },
        None => Vec::new(),
    }
}

fn is_hidden_by_name(name: &String, o: &TreeOptions) -> (b: bool)
    ensures
        b == hidden_by_name(name@, *o),
{
    if o.all {
        return false;
    }
    let mut k: usize = 0;
    while k < o.hide_name.len()
        invariant
            k <= o.hide_name.len(),
            !o.all,
            forall|i: int| 0 <= i < k ==> (#[trigger] o.hide_name@[i])@ != name@,
        decreases o.hide_name.len() - k,
    {
        if o.hide_name[k] == *name {
            return true;
        }
        k += 1;
    }
    false
}

fn flags_with(it: &DirItem, o: &TreeOptions, pats: &Vec<Vec<char>>) -> (r: (bool, bool))
    requires
        patterns_of(*o, views(pats@)),
    ensures
        r.0 == print_flag(*it, *o),
        r.1 == hidden_by_name(it.name@, *o),
{
    let name = chars_of(it.name.as_str());
    let dot = name.len() > 0 && name[0] == '.';
    let base = !(dot && !o.all) && !it.is_symlink && !(o.folders_only && !it.type_is_dir);
    let hidden = is_hidden_by_name(&it.name, o);
    let print = match &o.filter {
        Some(_) => pats.len() > 0 && base && any_pattern_in_exec(&name, pats),
        None => base && !hidden,
    };
    (print, hidden)
}

/// How the listing marks an entry: whether it is printed, and whether it is
/// hidden by name.
pub fn visibility(it: &DirItem, o: &TreeOptions) -> (r: (bool, bool))
    ensures
        r.0 == print_flag(*it, *o),
        r.1 == hidden_by_name(it.name@, *o),
{
    let pats = option_patterns(o);
    flags_with(it, o, &pats)
}

fn deeper_than_next(depth: usize, o: &TreeOptions) -> (b: bool)
    ensures
        b == (depth + 1 < o.depth),
{
    depth < o.depth && depth + 1 < o.depth
}

/// Whether the listing of a directory at `depth` is read.
pub fn needs_listing(should_print: bool, hidden: bool, depth: usize, o: &TreeOptions) -> (b: bool)
    ensures
        b == reads_children(should_print, hidden, depth as nat, *o),
{
    if hidden {
        o.filter.is_some() || o.folder_sizes || o.file_count
    } else {
        o.file_count || o.folder_sizes || (should_print && deeper_than_next(depth, o))
            || o.filter.is_some()
    }
}

/// Whether the entries of a listing read at `depth` are themselves examined.
pub fn examines_children(should_print: bool, depth: usize, o: &TreeOptions) -> (b: bool)
    ensures
        b == recurses(should_print, depth as nat, *o),
{
    o.folder_sizes || (should_print && deeper_than_next(depth, o)) || o.filter.is_some()
}

fn byte_key_exec(b: &Vec<u8>) -> (r: Vec<char>)
    ensures
        r@ == byte_key(b@),
{
    let mut r: Vec<char> = Vec::new();
    let mut k: usize = 0;
    while k < b.len()
        invariant
            k <= b.len(),
            r@ == byte_key(b@).take(k as int),
        decreases b.len() - k,
    {
        let c: char = b[k] as char;
        r.push(c);
        k += 1;
        assert(r@ =~= byte_key(b@).take(k as int));
    }
    assert(byte_key(b@).take(k as int) =~= byte_key(b@));
    r
}

/// The order in which a listing is processed.
pub fn listing_order_exec(ls: &Vec<DirItem>, o: &TreeOptions) -> (r: Vec<usize>)
    ensures
        r@ == listing_order(ls@, *o),
        r.len() == ls.len(),
        forall|i: int| 0 <= i < r.len() ==> #[trigger] r@[i] < ls.len(),
{
    if o.no_sort {
        let mut r: Vec<usize> = Vec::new();
        let mut k: usize = 0;
        while k < ls.len()
            invariant
                k <= ls.len(),
                r@ =~= Seq::new(k as nat, |i: int| i as usize),
            decreases ls.len() - k,
        {
            r.push(k);
            k += 1;
        }
        r
    } else {
        let mut keys: Vec<Vec<char>> = Vec::new();
        let mut k: usize = 0;
        while k < ls.len()
            invariant
                k <= ls.len(),
                views(keys@) == item_keys(ls@).take(k as int),
            decreases ls.len() - k,
        {
            let key = byte_key_exec(&ls[k].raw_name);
            let ghost old_keys = views(keys@);
            keys.push(key);
            assert(views(keys@) =~= old_keys.push(byte_key(ls@[k as int].raw_name@)));
            k += 1;
            assert(views(keys@) =~= item_keys(ls@).take(k as int));
        }
        assert(item_keys(ls@).take(k as int) =~= item_keys(ls@));
        let r = stable_sort_order(&keys);
        r
    }
}

} // verus!

verus! {

proof fn lemma_sum_totals_prefix(s: Seq<TreeNode>, k: int)
    requires
        0 <= k <= s.len(),
    ensures
        sum_totals(s.take(k)) <= sum_totals(s),
    decreases s.len() - k,
{
    if k < s.len() {
        lemma_sum_totals_prefix(s, k + 1);
        assert(s.take(k + 1).drop_last() =~= s.take(k));
    } else {
        assert(s.take(k) =~= s);
    }
}

/// The depth as the build tracks it: past the maximum, depths all act alike.
pub open spec fn capped(d: nat, o: TreeOptions) -> nat {
    if d < o.depth {
        d
    } else {
        o.depth as nat
    }
}

fn any_should_print(v: &Vec<TreeEntry>) -> (b: bool)
    ensures
        b == any_printed(entry_views(v@)),
{
    let mut k: usize = 0;
    while k < v.len()
        invariant
            k <= v.len(),
            forall|i: int| 0 <= i < k ==> !(#[trigger] entry_views(v@)[i]).should_print,
        decreases v.len() - k,
    {
        if v[k].should_print {
            assert(entry_views(v@)[k as int].should_print);
            return true;
        }
        k += 1;
    }
    false
}

#[verifier::spinoff_prover]
#[verifier::rlimit(40)]
fn build_entry_at(
    it: &DirItem,
    should_print: bool,
    hidden: bool,
    depth: usize,
    Ghost(d): Ghost<nat>,
    o: &TreeOptions,
    pats: &Vec<Vec<char>>,
) -> (r: Option<TreeEntry>)
    requires
        patterns_of(*o, views(pats@)),
        depth == capped(d, *o),
    ensures
        r is None <==> spec_build_entry(*it, should_print, hidden, d, *o).total_size > u64::MAX,
        r matches Some(e) ==> entry_view(e) == spec_build_entry(*it, should_print, hidden, d, *o),
    decreases it,
{
    let ghost spec_node = spec_build_entry(*it, should_print, hidden, d, *o);
    let fs: u64 = if it.is_file {
        it.len
    } else {
        0
    };
    let mut total: u64 = fs;
    let mut child_count: usize = 0;
    let mut children: Vec<TreeEntry> = Vec::new();
    let reads = it.is_dir && needs_listing(should_print, hidden, depth, o);
    assert(reads == (it.is_dir && reads_children(should_print, hidden, d, *o)));
    let rec = reads && examines_children(should_print, depth, o);
    assert(rec == (reads && recurses(should_print, d, *o)));
    let store = rec && deeper_than_next(depth, o) && (should_print || o.filter.is_some());
    assert(store == (rec && stores(should_print, d, *o)));
    let ghost kids: Seq<TreeNode> = if rec {
        match &it.children {
            Some(c) => child_nodes(c@, listing_order(c@, *o), d + 1, *o),
            None => Seq::empty(),
        }
    } else {
        Seq::empty()
    };
    assert(spec_node.total_size == fs + sum_totals(kids));
    if reads {
        match &it.children {
            Some(c) => {
                child_count = c.len();
                if rec {
                    let order = listing_order_exec(c, o);
                    let next_depth = if depth < o.depth {
                        depth + 1
                    } else {
                        o.depth
                    };
                    let mut t: usize = 0;
                    while t < c.len()
                        invariant
                            t <= c.len() == order.len(),
                            it.children == Some(*c),
                            patterns_of(*o, views(pats@)),
                            order@ == listing_order(c@, *o),
                            forall|i: int| 0 <= i < order.len() ==> #[trigger] order@[i] < c.len(),
                            next_depth == capped(d + 1, *o),
                            kids == child_nodes(c@, order@, d + 1, *o),
                            spec_node == spec_build_entry(*it, should_print, hidden, d, *o),
                            spec_node.total_size == fs + sum_totals(kids),
                            total == fs + sum_totals(kids.take(t as int)),
                            entry_views(children@) == if store {
                                kids.take(t as int)
                            } else {
                                Seq::empty()
                            },
                        decreases c.len() - t,
                    {
                        let j = order[t];
                        let child = &c[j];
                        let (csp, chid) = flags_with(child, o, pats);
                        proof {
                            assert(kids[t as int] == spec_build_entry(
                                c@[j as int],
                                csp,
                                chid,
                                d + 1,
                                *o,
                            ));
                            assert(kids.take(t + 1).drop_last() =~= kids.take(t as int));
                            assert(sum_totals(kids.take(t + 1)) == sum_totals(kids.take(t as int))
                                + kids[t as int].total_size);
                            lemma_sum_totals_prefix(kids, t + 1);
                            assert(decreases_to!(*it => it.children));
                            assert(it.children->0 == *c);
                            assert(decreases_to!(it.children => it.children->0));
                            assert(decreases_to!(*c => c@));
                            assert(decreases_to!(c@ => c@[j as int]));
                        }
                        let node = match build_entry_at(child, csp, chid, next_depth, Ghost(d + 1), o, pats) {
                            Some(n) => n,
                            None => {
                                return None;
                            },
                        };
                        total = match total.checked_add(node.total_size) {
                            Some(x) => x,
                            None => {
                                return None;
                            },
                        };
                        if store {
                            let ghost old_children = entry_views(children@);
                            children.push(node);
                            assert(entry_views(children@) =~= old_children.push(kids[t as int]));
                            assert(entry_views(children@) =~= kids.take(t + 1));
                        }
                        t += 1;
                    }
                    assert(kids.take(t as int) =~= kids);
                }
            },
            None => {},
        }
    }
    let printed = if it.is_dir {
        if !should_print && o.filter.is_none() {
            false
        } else {
            should_print || any_should_print(&children)
        }
    } else {
        should_print
    };
    let dot = {
        let nv = chars_of(it.name.as_str());
        nv.len() > 0 && nv[0] == '.'
    };
    let target = if it.is_symlink {
        match &it.link_target {
            Some(t) => Some(t.clone()),
            None => {
                let u: Vec<char> = vec!['u', 'n', 'k', 'n', 'o', 'w', 'n'];
                assert(u@ =~= unknown());
                Some(string_of(&u))
            },
        }
    } else {
        None
    };
    let e = TreeEntry {
        name: it.name.clone(),
        should_print: printed,
        is_dir: it.is_dir,
        is_exec: it.is_exec,
        is_hidden: dot,
        is_symlink: it.is_symlink,
        symlink_target: target,
        file_size: fs,
        total_size: total,
        child_count,
        children,
    };
    assert(entry_view(e).children =~= entry_views(e.children@));
    assert(entry_view(e).children == spec_node.children);
    assert(entry_view(e).should_print == spec_node.should_print);
    assert(entry_view(e).total_size == spec_node.total_size);
    assert(entry_view(e).child_count == spec_node.child_count);
    assert(entry_view(e).symlink_target == spec_node.symlink_target);
    assert(entry_view(e).is_hidden == spec_node.is_hidden);
    assert(entry_view(e) == spec_node);
    Some(e)
}

/// The node for one entry of a listing at `depth`, given whether it is to be
/// printed and whether it is hidden by name; `None` when a size it adds up
/// does not fit in 64 bits.
pub fn build_entry(
    it: &DirItem,
    should_print: bool,
    hidden: bool,
    depth: usize,
    o: &TreeOptions,
) -> (r: Option<TreeEntry>)
    ensures
        r is None <==> spec_build_entry(*it, should_print, hidden, depth as nat, *o).total_size
            > u64::MAX,
        r matches Some(e) ==> entry_view(e) == spec_build_entry(
            *it,
            should_print,
            hidden,
            depth as nat,
            *o,
        ),
        r matches Some(e) ==> ({
            &&& e.is_hidden == starts_with_dot(it.name@)
            &&& (e.symlink_target is Some) == e.is_symlink
            &&& e.file_size == (if it.is_file { it.len } else { 0 })
            &&& e.total_size >= e.file_size
            &&& !e.is_dir ==> e.total_size == e.file_size && e.child_count == 0 && e.children.len() == 0
        }),
{
    let pats = option_patterns(o);
    let capped_depth = if depth < o.depth {
        depth
    } else {
        o.depth
    };
    let r = build_entry_at(it, should_print, hidden, capped_depth, Ghost(depth as nat), o, &pats);
    proof {
        law_built_entry_facts(*it, should_print, hidden, depth as nat, *o);
    }
    r
}

/// Builds the tree of a directory's listing at `depth` (no entries at or
/// past the maximum depth), each entry sized, counted and marked for
/// printing; `None` when a size does not fit in 64 bits.
pub fn build_tree(ls: &Vec<DirItem>, depth: usize, o: &TreeOptions) -> (r: Option<Vec<TreeEntry>>)
    ensures
        r is None <==> exists|i: int|
            0 <= i < spec_build_tree(ls@, depth as nat, *o).len() && (#[trigger] spec_build_tree(
                ls@,
                depth as nat,
                *o,
            )[i]).total_size > u64::MAX,
        r matches Some(v) ==> entry_views(v@) == spec_build_tree(ls@, depth as nat, *o),
{
    let mut out: Vec<TreeEntry> = Vec::new();
    if depth >= o.depth {
        assert(entry_views(out@) =~= spec_build_tree(ls@, depth as nat, *o));
        return Some(out);
    }
    let pats = option_patterns(o);
    let order = listing_order_exec(ls, o);
    let ghost nodes = spec_build_tree(ls@, depth as nat, *o);
    let mut t: usize = 0;
    while t < ls.len()
        invariant
            depth < o.depth,
            t <= ls.len() == order.len(),
            patterns_of(*o, views(pats@)),
            order@ == listing_order(ls@, *o),
            forall|i: int| 0 <= i < order.len() ==> #[trigger] order@[i] < ls.len(),
            nodes == spec_build_tree(ls@, depth as nat, *o),
            nodes == child_nodes(ls@, order@, depth as nat, *o),
            forall|i: int| 0 <= i < t ==> (#[trigger] nodes[i]).total_size <= u64::MAX,
            entry_views(out@) == nodes.take(t as int),
        decreases ls.len() - t,
    {
        let j = order[t];
        let item = &ls[j];
        let (sp, hid) = flags_with(item, o, &pats);
        assert(nodes[t as int] == spec_build_entry(ls@[j as int], sp, hid, depth as nat, *o));
        let node = match build_entry_at(item, sp, hid, depth, Ghost(depth as nat), o, &pats) {
            Some(n) => n,
            None => {
                return None;
            },
        };
        let ghost old_out = entry_views(out@);
        out.push(node);
        assert(entry_views(out@) =~= old_out.push(nodes[t as int]));
        t += 1;
        assert(entry_views(out@) =~= nodes.take(t as int));
    }
    assert(nodes.take(t as int) =~= nodes);
    Some(out)
}

} // verus!

verus! {

/// The earliest match of any pattern in `rem`, as (position, pattern); on a
/// tie the pattern listed first wins.
pub open spec fn best_match(rem: Seq<char>, pats: Seq<Seq<char>>) -> Option<(int, Seq<char>)>
    decreases pats.len(),
{
    if pats.len() == 0 {
        None
    } else {
        let b = best_match(rem, pats.drop_last());
        let p = pats.last();
        let i = first_occurrence(rem, p);
        if i < 0 {
            b
        } else {
            match b {
                Some(bb) => if i < bb.0 {
                    Some((i, p))
                } else {
                    b
                },
                None => Some((i, p)),
            }
        }
    }
}

/// A name cut into pieces at the pattern matches: repeatedly, the text
/// before the earliest match (if any) and the match itself (highlighted).
pub open spec fn highlight(rem: Seq<char>, pats: Seq<Seq<char>>) -> Seq<(Seq<char>, bool)>
    decreases rem.len(),
{
    if rem.len() == 0 {
        Seq::empty()
    } else {
        match best_match(rem, pats) {
            None => seq![(rem, false)],
            Some(m) => {
                let i = m.0;
                let p = m.1;
                if 0 <= i && p.len() > 0 && i + p.len() <= rem.len() {
                    (if i > 0 {
                        seq![(rem.take(i), false)]
                    } else {
                        Seq::empty()
                    }) + seq![(rem.subrange(i, i + p.len()), true)] + highlight(
                        rem.skip(i + p.len()),
                        pats,
                    )
                } else {
                    seq![(rem, false)]
                }
            },
        }
    }
}

fn best_match_exec(rem: &Vec<char>, pats: &Vec<Vec<char>>) -> (r: Option<(usize, usize)>)
    ensures
        r is None ==> best_match(rem@, views(pats@)) is None,
        r matches Some(b) ==> b.1 < pats.len() && best_match(rem@, views(pats@)) == Some(
            (b.0 as int, pats@[b.1 as int]@),
        ) && occurs_at(rem@, pats@[b.1 as int]@, b.0 as int),
{
    let ghost ps = views(pats@);
    let mut best: Option<(usize, usize)> = None;
    let mut k: usize = 0;
    while k < pats.len()
        invariant
            k <= pats.len(),
            ps == views(pats@),
            best is None ==> best_match(rem@, ps.take(k as int)) is None,
            best matches Some(b) ==> b.1 < k && best_match(rem@, ps.take(k as int)) == Some(
                (b.0 as int, ps[b.1 as int]),
            ) && occurs_at(rem@, ps[b.1 as int], b.0 as int),
        decreases pats.len() - k,
    {
        assert(ps.take(k + 1).drop_last() =~= ps.take(k as int));
        assert(ps.take(k + 1).last() == ps[k as int]);
        let found = first_occurrence_exec(rem, &pats[k]);
        proof {
            lemma_first_occurrence(rem@, ps[k as int]);
        }
        match found {
            Some(i) => {
                match best {
                    Some(b) => {
                        if i < b.0 {
                            best = Some((i, k));
                        }
                    },
                    None => {
                        best = Some((i, k));
                    },
                }
            },
            None => {},
        }
        k += 1;
    }
    assert(ps.take(k as int) =~= ps);
    best
}

/// The pieces of a name; every pattern must be non-empty.
#[verifier::rlimit(40)]
pub fn highlight_chars(name: &Vec<char>, pats: &Vec<Vec<char>>) -> (r: Vec<Segment>)
    requires
        forall|i: int| 0 <= i < pats.len() ==> (#[trigger] pats@[i]).len() > 0,
    ensures
        segment_views(r@) == highlight(name@, views(pats@)),
{
    let ghost ps = views(pats@);
    let mut out: Vec<Segment> = Vec::new();
    let mut pos: usize = 0;
    assert(name@.skip(0) =~= name@);
    assert(segment_views(out@) + highlight(name@, ps) =~= highlight(name@, ps));
    while pos < name.len()
        invariant
            pos <= name.len(),
            ps == views(pats@),
            forall|i: int| 0 <= i < pats.len() ==> (#[trigger] pats@[i]).len() > 0,
            segment_views(out@) + highlight(name@.skip(pos as int), ps) == highlight(name@, ps),
        decreases name.len() - pos,
    {
        let rem = slice_chars(name, pos, name.len());
        assert(rem@ =~= name@.skip(pos as int));
        let ghost old_out = segment_views(out@);
        match best_match_exec(&rem, pats) {
            None => {
                out.push(Segment { text: string_of(&rem), matched: false });
                assert(segment_views(out@) =~= old_out + seq![(rem@, false)]);
                pos = name.len();
                assert(name@.skip(pos as int) =~= Seq::<char>::empty());
                assert(segment_views(out@) + highlight(name@.skip(pos as int), ps) =~= segment_views(out@));
            },
            Some((i, k)) => {
                let plen = pats[k].len();
                assert(ps[k as int].len() == plen);
                if i > 0 {
                    let before = slice_chars(&rem, 0, i);
                    assert(before@ =~= rem@.take(i as int));
                    out.push(Segment { text: string_of(&before), matched: false });
                }
                let hit = slice_chars(&rem, i, i + plen);
                out.push(Segment { text: string_of(&hit), matched: true });
                let ghost head: Seq<(Seq<char>, bool)> = (if i > 0 {
                    seq![(rem@.take(i as int), false)]
                } else {
                    Seq::empty()
                }) + seq![(rem@.subrange(i as int, i + plen), true)];
                assert(segment_views(out@) =~= old_out + head);
                assert(rem@.skip(i + plen) =~= name@.skip(pos + i + plen));
                pos = pos + i + plen;
                assert(highlight(rem@, ps) == head + highlight(name@.skip(pos as int), ps));
                assert(segment_views(out@) + highlight(name@.skip(pos as int), ps) =~= old_out + (head
                    + highlight(name@.skip(pos as int), ps)));
            },
        }
    }
    assert(name@.skip(pos as int) =~= Seq::<char>::empty());
    assert(segment_views(out@) + Seq::<(Seq<char>, bool)>::empty() =~= segment_views(out@));
    out
}

} // verus!

verus! {

/// How a name is drawn.
#[derive(Clone, Copy, Debug)]
pub enum NameStyle {
    /// `--clean`: no colors at all.
    Unstyled,
    Directory,
    Executable,
    Hidden,
    Symlink,
    Normal,
}

/// One printed line of the tree: `lead`, then the size (when shown) and a
/// space, the name pieces in `style` (matched pieces highlighted), `suffix`,
/// and ` (count)` when shown. The size is drawn in color only when
/// `size_styled` holds, which `--clean` turns off.
pub struct TreeRow {
    pub lead: String,
    pub size: Option<String>,
    pub size_styled: bool,
    pub style: NameStyle,
    pub name: Vec<Segment>,
    pub suffix: String,
    pub child_count: Option<usize>,
}

pub struct RowView {
    pub lead: Seq<char>,
    pub size: Option<Seq<char>>,
    pub size_styled: bool,
    pub style: NameStyle,
    pub name: Seq<(Seq<char>, bool)>,
    pub suffix: Seq<char>,
    pub child_count: Option<nat>,
}

pub open spec fn row_view(r: TreeRow) -> RowView {
    RowView {
        lead: r.lead@,
        size: match r.size {
            Some(s) => Some(s@),
            None => None,
        },
        size_styled: r.size_styled,
        style: r.style,
        name: segment_views(r.name@),
        suffix: r.suffix@,
        child_count: match r.child_count {
            Some(c) => Some(c as nat),
            None => None,
        },
    }
}

pub open spec fn row_views(v: Seq<TreeRow>) -> Seq<RowView> {
    v.map_values(|r: TreeRow| row_view(r))
}

pub open spec fn connector(is_last: bool) -> Seq<char> {
    if is_last {
        seq!['└', '─', '─', ' ']
    } else {
        seq!['├', '─', '─', ' ']
    }
}

pub open spec fn extension(is_last: bool) -> Seq<char> {
    if is_last {
        seq![' ', ' ', ' ', ' ']
    } else {
        seq!['│', ' ', ' ', ' ']
    }
}

pub open spec fn name_style(e: TreeNode, o: TreeOptions) -> NameStyle {
    if o.clean {
        NameStyle::Unstyled
    } else if e.is_dir {
        NameStyle::Directory
    } else if e.is_exec {
        NameStyle::Executable
    } else if e.is_hidden {
        NameStyle::Hidden
    } else if e.is_symlink {
        NameStyle::Symlink
    } else {
        NameStyle::Normal
    }
}

/// The name's pieces: highlighted at the filter's matches unless `--clean`.
pub open spec fn name_pieces(name: Seq<char>, o: TreeOptions) -> Seq<(Seq<char>, bool)> {
    if o.clean {
        seq![(name, false)]
    } else {
        match o.filter {
            None => seq![(name, false)],
            Some(f) => {
                let pats = spec_filter_patterns(f@);
                if pats.len() == 0 {
                    seq![(name, false)]
                } else {
                    highlight(name, pats)
                }
            },
        }
    }
}

pub open spec fn link_target_of(e: TreeNode) -> Seq<char> {
    match e.symlink_target {
        Some(t) => t,
        None => unknown(),
    }
}

pub open spec fn name_suffix(e: TreeNode) -> Seq<char> {
    if e.is_dir {
        seq!['/']
    } else if e.is_exec || e.is_hidden {
        Seq::empty()
    } else if e.is_symlink {
        seq![' ', '-', '>', ' '] + link_target_of(e)
    } else {
        Seq::empty()
    }
}

pub open spec fn size_text(e: TreeNode, o: TreeOptions) -> Option<Seq<char>> {
    if o.folder_sizes && e.is_dir {
        Some(pad_left(spec_human_size(e.total_size as u64), 8))
    } else if o.file_sizes && !e.is_dir {
        Some(pad_left(spec_human_size(e.file_size as u64), 8))
    } else {
        None
    }
}

pub open spec fn row_of(e: TreeNode, prefix: Seq<char>, is_last: bool, o: TreeOptions) -> RowView {
    RowView {
        lead: prefix + connector(is_last),
        size: size_text(e, o),
        size_styled: !o.clean,
        style: name_style(e, o),
        name: name_pieces(e.name, o),
        suffix: name_suffix(e),
        child_count: if o.file_count && e.is_dir {
            Some(e.child_count)
        } else {
            None
        },
    }
}

/// The rows for `entries[i..]` under `prefix`: each printed entry's row, and
/// below a directory the rows of its children, one level further in.
pub open spec fn render_from(entries: Seq<TreeNode>, prefix: Seq<char>, o: TreeOptions, i: int) -> Seq<
    RowView,
>
    decreases entries, entries.len() - i,
{
    if i < 0 || i >= entries.len() {
        Seq::empty()
    } else {
        let e = entries[i];
        let is_last = i == entries.len() - 1;
        let own = if e.should_print {
            seq![row_of(e, prefix, is_last, o)]
        } else {
            Seq::empty()
        };
        let sub = if e.is_dir && e.children.len() > 0 {
            render_from(e.children, prefix + extension(is_last), o, 0)
        } else {
            Seq::empty()
        };
        own + sub + render_from(entries, prefix, o, i + 1)
    }
}

pub open spec fn spec_render_tree(entries: Seq<TreeNode>, prefix: Seq<char>, o: TreeOptions) -> Seq<RowView> {
    render_from(entries, prefix, o, 0)
}

} // verus!

verus! {

fn name_pieces_exec(name: &String, o: &TreeOptions, pats: &Vec<Vec<char>>) -> (r: Vec<Segment>)
    requires
        patterns_of(*o, views(pats@)),
        o.filter is None ==> pats.len() == 0,
    ensures
        segment_views(r@) == name_pieces(name@, *o),
{
    if o.clean || pats.len() == 0 {
        let mut r: Vec<Segment> = Vec::new();
        r.push(Segment { text: name.clone(), matched: false });
        assert(segment_views(r@) =~= seq![(name@, false)]);
        r
    } else {
        proof {
            lemma_non_empty_elements(split(o.filter->0@, ',').map_values(|p: Seq<char>| trim(p)));
            assert forall|i: int| 0 <= i < pats.len() implies (#[trigger] pats@[i]).len() > 0 by {
                assert(views(pats@)[i] == pats@[i]@);
            }
        }
        let nv = chars_of(name.as_str());
        highlight_chars(&nv, pats)
    }
}

fn size_text_exec(bytes: u64) -> (r: String)
    ensures
        r@ == pad_left(spec_human_size(bytes), 8),
{
    let h = human_size(bytes);
    let hv = chars_of(h.as_str());
    let padded = pad_left_chars(&hv, 8);
    string_of(&padded)
}

fn row_for(e: &TreeEntry, prefix: &Vec<char>, is_last: bool, o: &TreeOptions, pats: &Vec<Vec<char>>) -> (r: TreeRow)
    requires
        patterns_of(*o, views(pats@)),
        o.filter is None ==> pats.len() == 0,
    ensures
        row_view(r) == row_of(entry_view(*e), prefix@, is_last, *o),
{
    let ghost node = entry_view(*e);
    let conn: Vec<char> = if is_last {
        vec!['└', '─', '─', ' ']
    } else {
        vec!['├', '─', '─', ' ']
    };
    assert(conn@ =~= connector(is_last));
    let mut lead = slice_chars(prefix, 0, prefix.len());
    assert(lead@ =~= prefix@);
    push_all(&mut lead, &conn);
    let size = if o.folder_sizes && e.is_dir {
        Some(size_text_exec(e.total_size))
    } else if o.file_sizes && !e.is_dir {
        Some(size_text_exec(e.file_size))
    } else {
        None
    };
    let style = if o.clean {
        NameStyle::Unstyled
    } else if e.is_dir {
        NameStyle::Directory
    } else if e.is_exec {
        NameStyle::Executable
    } else if e.is_hidden {
        NameStyle::Hidden
    } else if e.is_symlink {
        NameStyle::Symlink
    } else {
        NameStyle::Normal
    };
    let name = name_pieces_exec(&e.name, o, pats);
    let suffix: Vec<char> = if e.is_dir {
        vec!['/']
    } else if e.is_exec || e.is_hidden {
        Vec::new()
    } else if e.is_symlink {
        let mut s: Vec<char> = vec![' ', '-', '>', ' '];
        let target: Vec<char> = match &e.symlink_target {
            Some(t) => chars_of(t.as_str()),
            None => {
                let u: Vec<char> = vec!['u', 'n', 'k', 'n', 'o', 'w', 'n'];
                assert(u@ =~= unknown());
                u
            },
        };
        assert(target@ == link_target_of(node));
        let ghost s0 = s@;
        assert(s0 =~= seq![' ', '-', '>', ' ']);
        push_all(&mut s, &target);
        s
    } else {
        Vec::new()
    };
    assert(suffix@ =~= name_suffix(node));
    let child_count = if o.file_count && e.is_dir {
        Some(e.child_count)
    } else {
        None
    };
    let r = TreeRow {
        lead: string_of(&lead),
        size,
        size_styled: !o.clean,
        style,
        name,
        suffix: string_of(&suffix),
        child_count,
    };
    assert(row_view(r) == row_of(node, prefix@, is_last, *o));
    r
}

fn render_rows(entries: &Vec<TreeEntry>, prefix: &Vec<char>, o: &TreeOptions, pats: &Vec<Vec<char>>) -> (r: Vec<TreeRow>)
    requires
        patterns_of(*o, views(pats@)),
        o.filter is None ==> pats.len() == 0,
    ensures
        row_views(r@) == render_from(entry_views(entries@), prefix@, *o, 0),
    decreases entries,
{
    let ghost es = entry_views(entries@);
    let mut out: Vec<TreeRow> = Vec::new();
    let n = entries.len();
    let mut i: usize = 0;
    while i < n
        invariant
            n == entries.len(),
            i <= n,
            es == entry_views(entries@),
            patterns_of(*o, views(pats@)),
            o.filter is None ==> pats.len() == 0,
            row_views(out@) + render_from(es, prefix@, *o, i as int) == render_from(es, prefix@, *o, 0),
        decreases n - i,
    {
        let e = &entries[i];
        let is_last = i == n - 1;
        let ghost old_out = row_views(out@);
        let ghost node = es[i as int];
        assert(node == entry_view(*e));
        if e.should_print {
            let row = row_for(e, prefix, is_last, o, pats);
            out.push(row);
        }
        let ghost own: Seq<RowView> = if node.should_print {
            seq![row_of(node, prefix@, is_last, *o)]
        } else {
            Seq::empty()
        };
        assert(row_views(out@) =~= old_out + own);
        let ghost mid = row_views(out@);
        if e.is_dir && e.children.len() > 0 {
            let ext: Vec<char> = if is_last {
                vec![' ', ' ', ' ', ' ']
            } else {
                vec!['│', ' ', ' ', ' ']
            };
            assert(ext@ =~= extension(is_last));
            let mut next = slice_chars(prefix, 0, prefix.len());
            assert(next@ =~= prefix@);
            push_all(&mut next, &ext);
            proof {
                assert(decreases_to!(*entries => entries@));
                assert(decreases_to!(entries@ => entries@[i as int]));
                assert(decreases_to!(entries@[i as int] => entries@[i as int].children));
            }
            let mut sub = render_rows(&e.children, &next, o, pats);
            assert(entry_views(e.children@) =~= node.children);
            out.append(&mut sub);
        }
        let ghost sub_rows: Seq<RowView> = if node.is_dir && node.children.len() > 0 {
            render_from(node.children, prefix@ + extension(is_last), *o, 0)
        } else {
            Seq::empty()
        };
        assert(row_views(out@) =~= mid + sub_rows);
        assert(render_from(es, prefix@, *o, i as int) == own + sub_rows + render_from(es, prefix@, *o, i + 1));
        assert(row_views(out@) + render_from(es, prefix@, *o, i + 1) =~= old_out + (own + sub_rows
            + render_from(es, prefix@, *o, i + 1)));
        i += 1;
    }
    assert(row_views(out@) + Seq::<RowView>::empty() =~= row_views(out@));
    out
}

/// The rows printed for a tree: each entry marked for printing gets a row,
/// and the children of a directory follow it one level further in.
pub fn render_tree(entries: &Vec<TreeEntry>, o: &TreeOptions) -> (r: Vec<TreeRow>)
    ensures
        row_views(r@) == spec_render_tree(entry_views(entries@), seq![' '], *o),
{
    let pats = option_patterns(o);
    let prefix: Vec<char> = vec![' '];
    assert(prefix@ =~= seq![' ']);
    render_rows(entries, &prefix, o, &pats)
}

} // verus!

verus! {

/// The first line: the scanned directory, with its total size and its
/// number of entries when those are asked for.
pub struct RootLine {
    pub size: Option<String>,
    pub label: String,
    /// Drawn in color, the size in green and the label in the directory
    /// color; not with `--clean`.
    pub styled: bool,
    pub child_count: Option<usize>,
}

pub open spec fn verbatim_prefix() -> Seq<char> {
    seq!['\\', '\\', '?', '\\']
}

/// The displayed path without a Windows `\\\\?\\` prefix.
pub open spec fn root_label(display_path: Seq<char>) -> Seq<char> {
    if is_prefix(verbatim_prefix(), display_path) {
        display_path.skip(4)
    } else {
        display_path
    }
}

pub open spec fn root_line_matches(r: RootLine, tree: Seq<TreeNode>, display_path: Seq<char>, o: TreeOptions) -> bool {
    &&& r.label@ == root_label(display_path)
    &&& r.styled == !o.clean
    &&& (match r.size {
        Some(s) => o.folder_sizes && s@ == pad_left(spec_human_size(sum_totals(tree) as u64), 8),
        None => !o.folder_sizes,
    })
    &&& r.child_count == if o.file_count {
        Some(tree.len() as usize)
    } else {
        None::<usize>
    }
}

/// The first line for a built tree; `None` when its total size, which is
/// computed when sizes or counts are shown, does not fit in 64 bits.
pub fn root_line(tree: &Vec<TreeEntry>, display_path: &str, o: &TreeOptions) -> (r: Option<RootLine>)
    ensures
        r is None <==> (o.folder_sizes || o.file_count) && sum_totals(entry_views(tree@)) > u64::MAX,
        r matches Some(l) ==> root_line_matches(l, entry_views(tree@), display_path@, *o),
{
    let ghost ts = entry_views(tree@);
    let mut size: Option<String> = None;
    let mut child_count: Option<usize> = None;
    if o.folder_sizes || o.file_count {
        let mut total: u64 = 0;
        let mut k: usize = 0;
        while k < tree.len()
            invariant
                k <= tree.len(),
                o.folder_sizes || o.file_count,
                ts == entry_views(tree@),
                total == sum_totals(ts.take(k as int)),
            decreases tree.len() - k,
        {
            assert(ts.take(k + 1).drop_last() =~= ts.take(k as int));
            assert(sum_totals(ts.take(k + 1)) == sum_totals(ts.take(k as int)) + ts[k as int].total_size);
            assert(ts[k as int].total_size == tree@[k as int].total_size);
            proof {
                lemma_sum_totals_prefix(ts, k + 1);
            }
            total = match total.checked_add(tree[k].total_size) {
                Some(x) => x,
                None => {
                    return None;
                },
            };
            k += 1;
        }
        assert(ts.take(k as int) =~= ts);
        if o.folder_sizes {
            size = Some(size_text_exec(total));
        }
        if o.file_count {
            child_count = Some(tree.len());
        }
    }
    let pv = chars_of(display_path);
    let vp: Vec<char> = vec!['\\', '\\', '?', '\\'];
    assert(vp@ =~= verbatim_prefix());
    let label_chars = if starts_with_chars(&pv, &vp) {
        let l = slice_chars(&pv, 4, pv.len());
        assert(l@ =~= pv@.skip(4));
        l
    } else {
        slice_chars(&pv, 0, pv.len())
    };
    assert(label_chars@ =~= root_label(display_path@));
    Some(RootLine { size, label: string_of(&label_chars), styled: !o.clean, child_count })
}

} // verus!

verus! {

proof fn lemma_best_match_valid(rem: Seq<char>, pats: Seq<Seq<char>>)
    ensures
        best_match(rem, pats) matches Some(m) ==> 0 <= m.0 && occurs_at(rem, m.1, m.0) && exists|k: int|
            0 <= k < pats.len() && pats[k] == m.1,
    decreases pats.len(),
{
    if pats.len() > 0 {
        lemma_best_match_valid(rem, pats.drop_last());
        lemma_first_occurrence(rem, pats.last());
        let b = best_match(rem, pats.drop_last());
        if let Some(m) = best_match(rem, pats) {
            if m.1 == pats.last() && first_occurrence(rem, pats.last()) >= 0 && m.0 == first_occurrence(rem, pats.last()) {
                assert(pats[pats.len() - 1] == m.1);
            } else {
                assert(b == Some(m));
                let k = choose|k: int| 0 <= k < pats.drop_last().len() && pats.drop_last()[k] == m.1;
                assert(pats[k] == m.1);
            }
        }
    }
}

/// Law: highlighting never changes a name; its pieces spell it out.
pub proof fn law_highlight_spells_name(name: Seq<char>, pats: Seq<Seq<char>>)
    requires
        forall|i: int| 0 <= i < pats.len() ==> (#[trigger] pats[i]).len() > 0,
    ensures
        flatten_segments(highlight(name, pats)) == name,
    decreases name.len(),
{
    if name.len() == 0 {
        assert(flatten_segments(highlight(name, pats)) =~= name);
    } else {
        lemma_best_match_valid(name, pats);
        match best_match(name, pats) {
            None => {
                let s = seq![(name, false)];
                assert(s.drop_last() =~= Seq::<(Seq<char>, bool)>::empty());
                assert(flatten_segments(s.drop_last()) =~= Seq::<char>::empty());
                assert(flatten_segments(s) =~= name);
            },
            Some(m) => {
                let i = m.0;
                let p = m.1;
                let k = choose|k: int| 0 <= k < pats.len() && pats[k] == p;
                assert(p.len() > 0);
                let rest = name.skip(i + p.len());
                law_highlight_spells_name(rest, pats);
                let before: Seq<(Seq<char>, bool)> = if i > 0 {
                    seq![(name.take(i), false)]
                } else {
                    Seq::empty()
                };
                let hit = seq![(name.subrange(i, i + p.len()), true)];
                assert(highlight(name, pats) == before + hit + highlight(rest, pats));
                lemma_flatten_append(before + hit, highlight(rest, pats));
                lemma_flatten_append(before, hit);
                assert(hit.drop_last() =~= Seq::<(Seq<char>, bool)>::empty());
                assert(flatten_segments(hit.drop_last()) =~= Seq::<char>::empty());
                assert(flatten_segments(hit) =~= name.subrange(i, i + p.len()));
                if i > 0 {
                    assert(before.drop_last() =~= Seq::<(Seq<char>, bool)>::empty());
                    assert(flatten_segments(before.drop_last()) =~= Seq::<char>::empty());
                    assert(flatten_segments(before) =~= name.take(i));
                } else {
                    assert(flatten_segments(before) =~= Seq::<char>::empty());
                }
                assert(flatten_segments(highlight(name, pats)) =~= name);
            },
        }
    }
}

/// Law: however a name is highlighted (or not, with `--clean`), its pieces
/// spell out the name.
pub proof fn law_name_pieces_spell_name(name: Seq<char>, o: TreeOptions)
    ensures
        flatten_segments(name_pieces(name, o)) == name,
{
    let single = seq![(name, false)];
    assert(single.drop_last() =~= Seq::<(Seq<char>, bool)>::empty());
    assert(flatten_segments(single.drop_last()) =~= Seq::<char>::empty());
    assert(flatten_segments(single) =~= name);
    if !o.clean {
        if let Some(f) = o.filter {
            let pats = spec_filter_patterns(f@);
            if pats.len() > 0 {
                lemma_non_empty_elements(split(f@, ',').map_values(|p: Seq<char>| trim(p)));
                law_highlight_spells_name(name, pats);
            }
        }
    }
}

/// Law: without `--all` dotfiles and the `--hide-name` names are not
/// printed, links never are, and with `--folders-only` only directories are;
/// with `--all` and no filter every other entry is.
pub proof fn law_listing_hides(it: DirItem, o: TreeOptions)
    ensures
        print_flag(it, o) ==> !it.is_symlink,
        print_flag(it, o) && !o.all ==> !starts_with_dot(it.name@),
        print_flag(it, o) && o.folders_only ==> it.type_is_dir,
        o.filter is None && hidden_by_name(it.name@, o) ==> !print_flag(it, o),
        o.all ==> !hidden_by_name(it.name@, o),
        o.all && o.filter is None && !it.is_symlink && !(o.folders_only && !it.type_is_dir)
            ==> print_flag(it, o),
{
}

/// Law: without a filter, an entry that is not printed shows nothing below
/// it either: hidden directories do not leak their children.
pub proof fn law_hidden_entry_shows_nothing(it: DirItem, should_print: bool, hidden: bool, depth: nat, o: TreeOptions)
    requires
        o.filter is None,
        !should_print,
    ensures
        !spec_build_entry(it, should_print, hidden, depth, o).should_print,
        spec_build_entry(it, should_print, hidden, depth, o).children.len() == 0,
{
}

/// Law: nothing is kept below the maximum depth.
pub proof fn law_depth_limit(it: DirItem, should_print: bool, hidden: bool, depth: nat, o: TreeOptions)
    ensures
        spec_build_entry(it, should_print, hidden, depth, o).children.len() > 0 ==> depth + 1 < o.depth,
        depth >= o.depth ==> forall|ls: Seq<DirItem>| #[trigger] spec_build_tree(ls, depth, o).len() == 0,
{
}

/// Law: with folder sizes, a directory's total is its own size plus the
/// totals of all the entries in its listing, shown or hidden, and it counts
/// them all.
pub proof fn law_folder_size_counts_everything(it: DirItem, should_print: bool, hidden: bool, depth: nat, o: TreeOptions)
    requires
        o.folder_sizes,
        it.is_dir,
        it.children is Some,
    ensures
        ({
            let n = spec_build_entry(it, should_print, hidden, depth, o);
            let ls = listing(it);
            let kids = child_nodes(ls, listing_order(ls, o), depth + 1, o);
            &&& kids.len() == ls.len()
            &&& n.total_size == n.file_size + sum_totals(kids)
            &&& n.child_count == ls.len()
        }),
{
}

/// Law: every node the viewer builds is hidden exactly when its name starts
/// with a dot, has a link target exactly when it is a link, has the entry's
/// length as its own size when it is a regular file (else 0), and a total no
/// smaller than that; an entry that is not a directory has its own size as
/// total, no count and no children.
pub proof fn law_built_entry_facts(it: DirItem, should_print: bool, hidden: bool, depth: nat, o: TreeOptions)
    ensures
        ({
            let n = spec_build_entry(it, should_print, hidden, depth, o);
            &&& n.is_hidden == starts_with_dot(it.name@)
            &&& n.is_symlink == it.is_symlink
            &&& (n.symlink_target is Some) == it.is_symlink
            &&& n.file_size == (if it.is_file { it.len as nat } else { 0 })
            &&& n.total_size >= n.file_size
            &&& !n.is_dir ==> n.total_size == n.file_size && n.child_count == 0 && n.children.len() == 0
        }),
{
}

} // verus!

verus! {

/// Law: unless `--no-sort` is given, the entries of a tree level come in
/// order of their file names' bytes: the `i`-th node is built from the entry
/// at `listing_order(ls, o)[i]`, and those entries' byte keys never decrease.
/// Where every name is valid UTF-8 (its bytes encode it), the nodes' names
/// are in order too.
pub proof fn law_entries_sorted_by_name(ls: Seq<DirItem>, depth: nat, o: TreeOptions)
    requires
        !o.no_sort,
        ls.len() <= usize::MAX,
    ensures
        ({
            let t = spec_build_tree(ls, depth, o);
            let p = listing_order(ls, o);
            &&& forall|i: int| 0 <= i < t.len() ==> 0 <= #[trigger] p[i] < ls.len() && t[i].name
                == ls[p[i] as int].name@
            &&& forall|i: int, j: int|
                0 <= i < j < t.len() ==> seq_le(
                    byte_key((#[trigger] ls[p[i] as int]).raw_name@),
                    byte_key((#[trigger] ls[p[j] as int]).raw_name@),
                )
            &&& (forall|i: int| 0 <= i < ls.len() ==> raw_name_encodes(#[trigger] ls[i])) ==> forall|
                i: int,
                j: int,
            | 0 <= i < j < t.len() ==> seq_le((#[trigger] t[i]).name, (#[trigger] t[j]).name)
        }),
{
    let keys = item_keys(ls);
    law_stable_sort_exists(keys);
    let perm = stable_sort_of(keys);
    let t = spec_build_tree(ls, depth, o);
    assert forall|i: int| 0 <= i < t.len() implies 0 <= #[trigger] perm[i] < ls.len() && t[i].name
        == ls[perm[i] as int].name@ by {
        assert(perm[i] < ls.len());
    }
    assert forall|i: int, j: int| 0 <= i < j < t.len() implies seq_le(
        byte_key((#[trigger] ls[perm[i] as int]).raw_name@),
        byte_key((#[trigger] ls[perm[j] as int]).raw_name@),
    ) by {
        assert(perm[i] < ls.len());
        assert(perm[j] < ls.len());
        assert(seq_le(keys[perm[i] as int], keys[perm[j] as int]));
    }
    if forall|i: int| 0 <= i < ls.len() ==> raw_name_encodes(#[trigger] ls[i]) {
        assert forall|i: int, j: int| 0 <= i < j < t.len() implies seq_le(
            (#[trigger] t[i]).name,
            (#[trigger] t[j]).name,
        ) by {
            let a = ls[perm[i] as int];
            let b = ls[perm[j] as int];
            assert(perm[i] < ls.len());
            assert(perm[j] < ls.len());
            assert(seq_le(keys[perm[i] as int], keys[perm[j] as int]));
            assert(raw_name_encodes(a));
            assert(raw_name_encodes(b));
            lemma_utf8_key_reflects_order(a.name@, b.name@);
        }
    }
}

} // verus!

verus! {

/// The number of nodes marked for printing in `entries[i..]` and below
/// directories among them.
pub open spec fn printed_count(entries: Seq<TreeNode>, i: int) -> nat
    decreases entries, entries.len() - i,
{
    if i < 0 || i >= entries.len() {
        0
    } else {
        let e = entries[i];
        (if e.should_print {
            1nat
        } else {
            0nat
        }) + (if e.is_dir {
            printed_count(e.children, 0)
        } else {
            0nat
        }) + printed_count(entries, i + 1)
    }
}

/// Law: the tree prints one row for each entry marked for printing, at any
/// depth, and no other.
pub proof fn law_one_row_per_printed_entry(entries: Seq<TreeNode>, prefix: Seq<char>, o: TreeOptions, i: int)
    requires
        0 <= i,
    ensures
        render_from(entries, prefix, o, i).len() == printed_count(entries, i),
    decreases entries, entries.len() - i,
{
    if i < entries.len() {
        let e = entries[i];
        let is_last = i == entries.len() - 1;
        law_one_row_per_printed_entry(entries, prefix, o, i + 1);
        if e.is_dir {
            law_one_row_per_printed_entry(e.children, prefix + extension(is_last), o, 0);
            if e.children.len() == 0 {
                assert(printed_count(e.children, 0) == 0);
            }
        }
    }
}

} // verus!

verus! {

/// On Unix: a regular file with an execute bit set for its owner, its group
/// or others.
pub open spec fn spec_is_executable_mode(is_file: bool, mode: u32) -> bool {
    is_file && mode & 0o111u32 != 0
}

/// Whether a file with these metadata (regular file or not, permission
/// bits) is shown as executable on Unix.
pub fn is_executable_mode(is_file: bool, mode: u32) -> (b: bool)
    ensures
        b == spec_is_executable_mode(is_file, mode),
{
    is_file && mode & 0o111u32 != 0
}

/// `c` is the lower-case ASCII letter `w`, or `w` itself when `w` is not
/// one: `c` is `w` or, for an upper-case ASCII letter `c`, the code of `c`
/// plus 32 is that of `w`.
pub open spec fn char_eq_ascii_ci(c: char, w: char) -> bool {
    c == w || ('A' <= c <= 'Z' && c as u32 + 32 == w as u32)
}

/// `a` equals the lower-case word `w` ignoring ASCII case.
pub open spec fn eq_ascii_ci(a: Seq<char>, w: Seq<char>) -> bool {
    a.len() == w.len() && forall|i: int| 0 <= i < a.len() ==> char_eq_ascii_ci(#[trigger] a[i], w[i])
}

/// The extensions of executables on Windows.
pub open spec fn executable_extensions() -> Seq<Seq<char>> {
    seq![seq!['e', 'x', 'e'], seq!['c', 'o', 'm'], seq!['b', 'a', 't'], seq!['c', 'm', 'd'], seq!['p', 's', '1']]
}

pub open spec fn spec_is_executable_extension(ext: Option<Seq<char>>) -> bool {
    match ext {
        Some(e) => exists|i: int| 0 <= i < 5 && eq_ascii_ci(e, #[trigger] executable_extensions()[i]),
        None => false,
    }
}

fn eq_ascii_ci_exec(a: &Vec<char>, w: &Vec<char>) -> (b: bool)
    ensures
        b == eq_ascii_ci(a@, w@),
{
    if a.len() != w.len() {
        return false;
    }
    let mut k: usize = 0;
    while k < a.len()
        invariant
            k <= a.len() == w.len(),
            forall|i: int| 0 <= i < k ==> char_eq_ascii_ci(#[trigger] a@[i], w@[i]),
        decreases a.len() - k,
    {
        let c = a[k];
        let t = w[k];
        let same = c == t || ('A' <= c && c <= 'Z' && (c as u32) + 32 == (t as u32));
        if !same {
            assert(!char_eq_ascii_ci(a@[k as int], w@[k as int]));
            return false;
        }
        k += 1;
    }
    true
}

/// Whether a file with this extension (when it has one that is valid
/// Unicode) is shown as executable on Windows: `exe`, `com`, `bat`, `cmd` or
/// `ps1`, in any ASCII case.
pub fn is_executable_extension(ext: Option<&str>) -> (b: bool)
    ensures
        b == spec_is_executable_extension(opt_str_view(ext)),
{
    match ext {
        None => false,
        Some(e) => {
            assert(opt_str_view(ext) == Some(e@));
            let a = chars_of(e);
            let words: Vec<Vec<char>> = vec![
                vec!['e', 'x', 'e'],
                vec!['c', 'o', 'm'],
                vec!['b', 'a', 't'],
                vec!['c', 'm', 'd'],
                vec!['p', 's', '1'],
            ];
            assert(views(words@) =~= executable_extensions());
            let mut k: usize = 0;
            while k < words.len()
                invariant
                    k <= words.len() == 5,
                    views(words@) == executable_extensions(),
                    a@ == e@,
                    opt_str_view(ext) == Some(e@),
                    forall|i: int| 0 <= i < k ==> !eq_ascii_ci(a@, #[trigger] executable_extensions()[i]),
                decreases words.len() - k,
            {
                assert(words@[k as int]@ == executable_extensions()[k as int]);
                if eq_ascii_ci_exec(&a, &words[k]) {
                    assert(eq_ascii_ci(e@, executable_extensions()[k as int]));
                    return true;
                }
                k += 1;
            }
            false
        },
    }
}

pub open spec fn opt_str_view(o: Option<&str>) -> Option<Seq<char>> {
    match o {
        Some(s) => Some(s@),
        None => None,
    }
}

} // verus!

verus! {

/// The UTF-8 encoding of a character: one to four bytes.
pub open spec fn utf8_char(c: char) -> Seq<u8> {
    let n = c as int;
    if n < 0x80 {
        seq![n as u8]
    } else if n < 0x800 {
        seq![(0xC0 + n / 64) as u8, (0x80 + n % 64) as u8]
    } else if n < 0x10000 {
        seq![(0xE0 + n / 4096) as u8, (0x80 + (n / 64) % 64) as u8, (0x80 + n % 64) as u8]
    } else {
        seq![
            (0xF0 + n / 262144) as u8,
            (0x80 + (n / 4096) % 64) as u8,
            (0x80 + (n / 64) % 64) as u8,
            (0x80 + n % 64) as u8,
        ]
    }
}

/// The UTF-8 encoding of a string.
pub open spec fn utf8(s: Seq<char>) -> Seq<u8>
    decreases s.len(),
{
    if s.len() == 0 {
        Seq::empty()
    } else {
        utf8_char(s[0]) + utf8(s.drop_first())
    }
}

/// An entry whose file name is valid UTF-8: its bytes encode its name (its
/// lossy decoding is then exact).
pub open spec fn raw_name_encodes(it: DirItem) -> bool {
    it.raw_name@ == utf8(it.name@)
}

proof fn lemma_seq_le_common_prefix(p: Seq<char>, x: Seq<char>, y: Seq<char>)
    ensures
        seq_le(p + x, p + y) == seq_le(x, y),
    decreases p.len(),
{
    if p.len() > 0 {
        lemma_seq_le_common_prefix(p.drop_first(), x, y);
        assert((p + x).drop_first() =~= p.drop_first() + x);
        assert((p + y).drop_first() =~= p.drop_first() + y);
        assert((p + x)[0] == (p + y)[0]);
    } else {
        assert(p + x =~= x);
        assert(p + y =~= y);
    }
}

/// Of two numbers, the smaller has the smaller base-64 quotient, or the same
/// quotient and the smaller remainder.
proof fn lemma_base64_order(m: int, n: int)
    requires
        0 <= m <= n,
    ensures
        m / 64 <= n / 64,
        m / 64 == n / 64 ==> m % 64 <= n % 64,
        m < n && m / 64 == n / 64 ==> m % 64 < n % 64,
{
}

proof fn lemma_base64_chain(x: int)
    requires
        0 <= x,
    ensures
        (x / 64) / 64 == x / 4096,
        (x / 4096) / 64 == x / 262144,
{
    vstd::arithmetic::div_mod::lemma_div_denominator(x, 64, 64);
    vstd::arithmetic::div_mod::lemma_div_denominator(x, 4096, 64);
}

/// The bytes of a character's encoding: the lead byte's range tells the
/// length (below 0x80 for one byte, 0xC0 to 0xDF for two, 0xE0 to 0xEF for
/// three, 0xF0 and up for four).
proof fn lemma_utf8_char_bytes(c: char)
    ensures
        ({
            let n = c as int;
            let e = utf8_char(c);
            &&& 0 <= n <= 0x10FFFF
            &&& n < 0x80 ==> e.len() == 1 && e[0] == n
            &&& 0x80 <= n < 0x800 ==> e.len() == 2 && 0xC0 <= e[0] <= 0xDF && e[0] == 0xC0 + n / 64
                && e[1] == 0x80 + n % 64
            &&& 0x800 <= n < 0x10000 ==> e.len() == 3 && 0xE0 <= e[0] <= 0xEF && e[0] == 0xE0 + n
                / 4096 && e[1] == 0x80 + (n / 64) % 64 && e[2] == 0x80 + n % 64
            &&& 0x10000 <= n ==> e.len() == 4 && 0xF0 <= e[0] && e[0] == 0xF0 + n / 262144 && e[1]
                == 0x80 + (n / 4096) % 64 && e[2] == 0x80 + (n / 64) % 64 && e[3] == 0x80 + n % 64
        }),
{
    let n = c as int;
    assert(0 <= n <= 0x10FFFF);
}

/// Of two characters, the smaller one's encoding is smaller at the first
/// byte where the two differ, and they differ within both.
#[verifier::spinoff_prover]
proof fn lemma_utf8_char_order(c: char, d: char) -> (j: int)
    requires
        (d as int) < (c as int),
    ensures
        0 <= j < utf8_char(c).len(),
        j < utf8_char(d).len(),
        utf8_char(c).take(j) == utf8_char(d).take(j),
        utf8_char(d)[j] < utf8_char(c)[j],
{
    let n = c as int;
    let m = d as int;
    lemma_utf8_char_bytes(c);
    lemma_utf8_char_bytes(d);
    let ec = utf8_char(c);
    let ed = utf8_char(d);
    assert(ec.take(0) =~= ed.take(0));
    if (m < 0x80) != (n < 0x80) || (m < 0x800) != (n < 0x800) || (m < 0x10000) != (n < 0x10000) {
        0
    } else if n < 0x80 {
        0
    } else {
        lemma_base64_chain(m);
        lemma_base64_chain(n);
        lemma_base64_order(m, n);
        lemma_base64_order(m / 64, n / 64);
        lemma_base64_order(m / 4096, n / 4096);
        if n < 0x800 {
            if m / 64 < n / 64 {
                0
            } else {
                assert(ec.take(1) =~= ed.take(1));
                1
            }
        } else if n < 0x10000 {
            if m / 4096 < n / 4096 {
                0
            } else if m / 64 < n / 64 {
                assert(ec.take(1) =~= ed.take(1));
                1
            } else {
                assert(ec.take(2) =~= ed.take(2));
                2
            }
        } else {
            if m / 262144 < n / 262144 {
                0
            } else if m / 4096 < n / 4096 {
                assert(ec.take(1) =~= ed.take(1));
                1
            } else if m / 64 < n / 64 {
                assert(ec.take(2) =~= ed.take(2));
                2
            } else {
                assert(ec.take(3) =~= ed.take(3));
                3
            }
        }
    }
}

/// Byte order of UTF-8 encodings reflects the order of the strings.
proof fn lemma_utf8_key_reflects_order(a: Seq<char>, b: Seq<char>)
    ensures
        seq_le(byte_key(utf8(a)), byte_key(utf8(b))) ==> seq_le(a, b),
    decreases a.len(),
{
    if a.len() == 0 {
    } else if b.len() == 0 {
        let ea = utf8_char(a[0]);
        assert(utf8(b) =~= Seq::<u8>::empty());
        assert(ea.len() > 0);
        assert(utf8(a).len() > 0);
        assert(byte_key(utf8(b)).len() == 0);
    } else {
        let ea = utf8_char(a[0]);
        let eb = utf8_char(b[0]);
        let ka = byte_key(utf8(a.drop_first()));
        let kb = byte_key(utf8(b.drop_first()));
        assert(byte_key(utf8(a)) =~= byte_key(ea) + ka);
        assert(byte_key(utf8(b)) =~= byte_key(eb) + kb);
        if a[0] == b[0] {
            lemma_seq_le_common_prefix(byte_key(ea), ka, kb);
            lemma_utf8_key_reflects_order(a.drop_first(), b.drop_first());
        } else if (b[0] as int) < (a[0] as int) {
            let j = lemma_utf8_char_order(a[0], b[0]);
            let p = byte_key(ea.take(j));
            let ra = byte_key(ea.skip(j)) + ka;
            let rb = byte_key(eb.skip(j)) + kb;
            assert(byte_key(ea) + ka =~= p + ra);
            assert(byte_key(eb.take(j)) =~= p);
            assert(byte_key(eb) + kb =~= p + rb);
            lemma_seq_le_common_prefix(p, ra, rb);
            assert(ra[0] == (ea[j] as char));
            assert(rb[0] == (eb[j] as char));
            assert(rb[0] < ra[0]);
            assert(!seq_le(ra, rb));
        }
    }
}

} // verus!

verus! {

/// A node at depth `d` keeps children only when `d + 1 < limit`, and each
/// child, one level further in, is bounded in the same way.
pub open spec fn depth_bounded(n: TreeNode, d: nat, limit: nat) -> bool
    decreases n,
{
    &&& n.children.len() > 0 ==> d + 1 < limit
    &&& forall|i: int|
        0 <= i < n.children.len() ==> depth_bounded(#[trigger] n.children[i], d + 1, limit)
}

proof fn lemma_entry_depth_bounded(it: DirItem, should_print: bool, hidden: bool, d: nat, o: TreeOptions)
    ensures
        depth_bounded(spec_build_entry(it, should_print, hidden, d, o), d, o.depth as nat),
    decreases it,
{
    let n = spec_build_entry(it, should_print, hidden, d, o);
    match it.children {
        Some(c) => {
            lemma_nodes_depth_bounded(c@, listing_order(c@, o), d + 1, o);
            let kids = child_nodes(c@, listing_order(c@, o), d + 1, o);
            if n.children.len() > 0 {
                assert(n.children == kids);
                assert(d + 1 < o.depth);
                assert forall|i: int| 0 <= i < n.children.len() implies depth_bounded(
                    #[trigger] n.children[i],
                    d + 1,
                    o.depth as nat,
                ) by {
                    assert(n.children[i] == kids[i]);
                }
            }
        },
        None => {},
    }
}

proof fn lemma_nodes_depth_bounded(ls: Seq<DirItem>, perm: Seq<usize>, d: nat, o: TreeOptions)
    ensures
        forall|i: int|
            0 <= i < child_nodes(ls, perm, d, o).len() ==> depth_bounded(
                #[trigger] child_nodes(ls, perm, d, o)[i],
                d,
                o.depth as nat,
            ),
    decreases ls,
{
    assert forall|i: int| 0 <= i < child_nodes(ls, perm, d, o).len() implies depth_bounded(
        #[trigger] child_nodes(ls, perm, d, o)[i],
        d,
        o.depth as nat,
    ) by {
        if 0 <= i < perm.len() && 0 <= perm[i] < ls.len() {
            let it = ls[perm[i] as int];
            lemma_entry_depth_bounded(it, print_flag(it, o), hidden_by_name(it.name@, o), d, o);
        } else {
            assert(empty_node().children.len() == 0);
        }
    }
}

/// Law: a tree built at `depth` nests no deeper than the maximum depth:
/// a node at nesting level `k` (the top level being 0) keeps children only
/// when `depth + k + 1` is below the maximum.
pub proof fn law_tree_depth_bounded(ls: Seq<DirItem>, depth: nat, o: TreeOptions)
    ensures
        forall|i: int|
            0 <= i < spec_build_tree(ls, depth, o).len() ==> depth_bounded(
                #[trigger] spec_build_tree(ls, depth, o)[i],
                depth,
                o.depth as nat,
            ),
{
    if depth < o.depth {
        lemma_nodes_depth_bounded(ls, listing_order(ls, o), depth, o);
    }
}

} // verus!

verus! {

/// Law: with `--file-count`, a directory whose listing is given counts every
/// entry of that listing, whatever the other options and whether it is
/// printed or hidden.
pub proof fn law_file_count_counts_listing(
    it: DirItem,
    should_print: bool,
    hidden: bool,
    depth: nat,
    o: TreeOptions,
)
    requires
        o.file_count,
        it.is_dir,
        it.children is Some,
    ensures
        spec_build_entry(it, should_print, hidden, depth, o).child_count == (it.children->0)@.len(),
{
}

/// Law: the row of a printed entry starts with the prefix and its connector;
/// with `--folder-sizes` a directory's row shows its total size (its own size
/// plus the totals of its listing) as a right-aligned human-readable size,
/// with `--file-sizes` a file's row shows the file's own size, and otherwise
/// no size; with `--file-count` a directory's row shows its entry count.
pub proof fn law_row_shows_sizes_and_counts(
    entries: Seq<TreeNode>,
    prefix: Seq<char>,
    o: TreeOptions,
    i: int,
)
    requires
        0 <= i < entries.len(),
        entries[i].should_print,
    ensures
        ({
            let e = entries[i];
            let r = render_from(entries, prefix, o, i)[0];
            &&& render_from(entries, prefix, o, i).len() > 0
            &&& r.lead == prefix + connector(i == entries.len() - 1)
            &&& o.folder_sizes && e.is_dir ==> r.size == Some(
                pad_left(spec_human_size(e.total_size as u64), 8),
            )
            &&& o.file_sizes && !e.is_dir ==> r.size == Some(
                pad_left(spec_human_size(e.file_size as u64), 8),
            )
            &&& !(o.folder_sizes && e.is_dir) && !(o.file_sizes && !e.is_dir) ==> r.size is None
            &&& o.file_count && e.is_dir ==> r.child_count == Some(e.child_count)
            &&& !(o.file_count && e.is_dir) ==> r.child_count is None
        }),
{
    let e = entries[i];
    let is_last = i == entries.len() - 1;
    let own = seq![row_of(e, prefix, is_last, o)];
    let sub = if e.is_dir && e.children.len() > 0 {
        render_from(e.children, prefix + extension(is_last), o, 0)
    } else {
        Seq::empty()
    };
    assert(render_from(entries, prefix, o, i) == own + sub + render_from(entries, prefix, o, i + 1));
    assert((own + sub + render_from(entries, prefix, o, i + 1))[0] == own[0]);
}

/// Law: with a filter that has patterns, an entry that the base rules show
/// is marked for printing exactly when its name contains at least one of
/// the patterns, wherever that pattern stands in the list; an entry the base
/// rules hide is never marked.
pub proof fn law_filter_marks_matching_names(it: DirItem, o: TreeOptions)
    requires
        o.filter is Some,
    ensures
        ({
            let pats = spec_filter_patterns((o.filter->0)@);
            &&& pats.len() > 0 && base_visible(it, o) ==> (print_flag(it, o) <==> exists|k: int|
                0 <= k < pats.len() && contains(it.name@, #[trigger] pats[k]))
            &&& !base_visible(it, o) ==> !print_flag(it, o)
        }),
{
}

/// Law: `--hide-name` matches names exactly: without `--all` an entry named
/// like one of the given names is hidden, and a name equal to none of them
/// (even one that contains one) is not; with `--all` no name is hidden.
pub proof fn law_hide_name_is_exact(name: Seq<char>, o: TreeOptions)
    ensures
        forall|i: int|
            0 <= i < o.hide_name.len() && !o.all ==> hidden_by_name(#[trigger] o.hide_name@[i]@, o),
        (forall|i: int| 0 <= i < o.hide_name.len() ==> (#[trigger] o.hide_name@[i])@ != name)
            ==> !hidden_by_name(name, o),
        o.all ==> !hidden_by_name(name, o),
{
}

} // verus!

verus! {

/// Law: with a filter, a directory whose entries are kept (it lies above the
/// maximum depth) is printed when some entry of its listing is marked for
/// printing, even when the directory itself does not match, is hidden by
/// name, or is not printed on its own: the folders leading to a match show.
pub proof fn law_filter_shows_folders_leading_to_matches(
    it: DirItem,
    should_print: bool,
    hidden: bool,
    depth: nat,
    o: TreeOptions,
    k: int,
)
    requires
        o.filter is Some,
        it.is_dir,
        it.children is Some,
        depth + 1 < o.depth,
        (it.children->0)@.len() <= usize::MAX,
        0 <= k < (it.children->0)@.len(),
        print_flag((it.children->0)@[k], o),
    ensures
        spec_build_entry(it, should_print, hidden, depth, o).should_print,
{
    let ls = (it.children->0)@;
    let perm = listing_order(ls, o);
    if o.no_sort {
        assert(perm[k] == k as usize);
        lemma_child_marked(ls, perm, depth + 1, o, k);
    } else {
        law_stable_sort_exists(item_keys(ls));
        assert(appears(perm, k as usize));
        let t = choose|t: int| 0 <= t < perm.len() && #[trigger] perm[t] == k as usize;
        lemma_child_marked(ls, perm, depth + 1, o, t);
    }
}

proof fn lemma_child_marked(ls: Seq<DirItem>, perm: Seq<usize>, d: nat, o: TreeOptions, t: int)
    requires
        0 <= t < perm.len(),
        t < ls.len(),
        0 <= perm[t] < ls.len(),
        print_flag(ls[perm[t] as int], o),
    ensures
        any_printed(child_nodes(ls, perm, d, o)),
{
    let kids = child_nodes(ls, perm, d, o);
    assert(kids[t].should_print);
}

} // verus!
