use vstd::prelude::*;
use crate::text::{split_char, split_on, string_views, lemma_split_nonempty, lemma_split_concat, lemma_split_without_sep};

verus! {

/// Appends `name` to `base` as `Path::push` does on Unix: an absolute `name`
/// replaces `base`; otherwise a `/` is put between the two unless `base` is
/// empty or already ends with one.
pub open spec fn path_join(base: Seq<char>, name: Seq<char>) -> Seq<char> {
    if name.len() > 0 && name[0] == '/' {
        name
    } else if base.len() == 0 {
        name
    } else if base.last() == '/' {
        base + name
    } else {
        base + seq!['/'] + name
    }
}

/// A segment between separators that names a directory entry: neither empty
/// nor the current-directory marker `.`.
pub open spec fn is_normal_segment(x: Seq<char>) -> bool {
    x.len() > 0 && x != seq!['.']
}

/// The normal segments of `segs`, in order.
pub open spec fn normal_segments(segs: Seq<Seq<char>>) -> Seq<Seq<char>>
    decreases segs.len(),
{
    if segs.len() == 0 {
        segs
    } else if is_normal_segment(segs.last()) {
        normal_segments(segs.drop_last()).push(segs.last())
    } else {
        normal_segments(segs.drop_last())
    }
}

/// The components of a Unix path, as `Path::components` yields them: a leading
/// `/` for an absolute path, a leading `.` for a path that starts with the
/// current-directory marker, then every normal segment; repeated separators
/// and inner `.` segments are dropped.
pub open spec fn path_components(p: Seq<char>) -> Seq<Seq<char>> {
    let segs = split_on(p, '/');
    let lead = if p.len() > 0 && p[0] == '/' {
        seq![seq!['/']]
    } else if segs[0] == seq!['.'] {
        seq![seq!['.']]
    } else {
        Seq::<Seq<char>>::empty()
    };
    lead + normal_segments(segs)
}

/// `p` lies at or below `base`, component by component (`Path::starts_with`).
pub open spec fn path_starts_with(p: Seq<char>, base: Seq<char>) -> bool {
    path_components(base).is_prefix_of(path_components(p))
}

/// A path component that a project name can be: no separator, not empty.
pub open spec fn is_plain_name(name: Seq<char>) -> bool {
    name.len() > 0 && !name.contains('/')
}

/// Joins a relative name onto a base path.
pub fn join_path(base: &str, name: &str) -> (r: String)
    ensures
        r@ == path_join(base@, name@),
{
    proof {
        reveal_strlit("/");
    }
    let name_len = name.unicode_len();
    let base_len = base.unicode_len();
    if name_len > 0 && name.get_char(0) == '/' {
        name.to_owned()
    } else if base_len == 0 {
        name.to_owned()
    } else if base.get_char(base_len - 1) == '/' {
        base.to_owned().concat(name)
    } else {
        base.to_owned().concat("/").concat(name)
    }
}

fn is_dot(s: &str) -> (r: bool)
    ensures
        r == (s@ == seq!['.']),
{
    if s.unicode_len() == 1 {
        let c = s.get_char(0);
        proof {
            if c == '.' {
                assert(s@ =~= seq!['.']);
            }
        }
        c == '.'
    } else {
        false
    }
}

/// The components of a path.
pub fn components(p: &str) -> (r: Vec<String>)
    ensures
        string_views(r@) == path_components(p@),
{
    proof {
        reveal_strlit("/");
        reveal_strlit(".");
    }
    let segs = split_char(p, '/');
    proof {
        lemma_split_nonempty(p@, '/');
        assert(string_views(segs@)[0] == segs@[0]@);
    }
    let mut out: Vec<String> = Vec::new();
    let n = p.unicode_len();
    if n > 0 && p.get_char(0) == '/' {
        out.push(String::from_str("/"));
    } else if is_dot(segs[0].as_str()) {
        out.push(String::from_str("."));
    }
    let ghost lead = string_views(out@);
    proof {
        assert("/"@ =~= seq!['/']);
        assert("."@ =~= seq!['.']);
        let segs_v = split_on(p@, '/');
        let spec_lead = if p@.len() > 0 && p@[0] == '/' {
            seq![seq!['/']]
        } else if segs_v[0] == seq!['.'] {
            seq![seq!['.']]
        } else {
            Seq::<Seq<char>>::empty()
        };
        assert(lead =~= spec_lead);
        assert(string_views(segs@).take(0) =~= Seq::<Seq<char>>::empty());
        assert(lead + normal_segments(string_views(segs@).take(0)) =~= lead);
    }
    let mut i: usize = 0;
    while i < segs.len()
        invariant
            0 <= i <= segs@.len(),
            string_views(out@) == lead + normal_segments(string_views(segs@).take(i as int)),
        decreases segs@.len() - i,
    {
        let seg = &segs[i];
        let keep = seg.unicode_len() > 0 && !is_dot(seg.as_str());
        let ghost views = string_views(segs@);
        proof {
            assert(views[i as int] == seg@);
            assert(views.take(i as int + 1).last() == seg@);
            assert(views.take(i as int + 1) =~= views.take(i as int).push(seg@));
            assert(views.take(i as int + 1).drop_last() =~= views.take(i as int));
        }
        if keep {
            out.push(seg.clone());
            proof {
                assert(string_views(out@) =~= string_views(out@.drop_last()).push(out@.last()@));
                assert(lead + normal_segments(views.take(i as int)).push(seg@) =~= (lead
                    + normal_segments(views.take(i as int))).push(seg@));
            }
        }
        i = i + 1;
    }
    proof {
        assert(string_views(segs@).take(segs@.len() as int) =~= string_views(segs@));
    }
    out
}

/// Whether `p` lies at or below `base`, component by component.
pub fn starts_with(p: &str, base: &str) -> (r: bool)
    ensures
        r == path_starts_with(p@, base@),
{
    let pc = components(p);
    let bc = components(base);
    let ghost pv = string_views(pc@);
    let ghost bv = string_views(bc@);
    if bc.len() > pc.len() {
        return false;
    }
    let mut i: usize = 0;
    while i < bc.len()
        invariant
            bc@.len() <= pc@.len(),
            pv == string_views(pc@),
            bv == string_views(bc@),
            pv == path_components(p@),
            bv == path_components(base@),
            0 <= i <= bc@.len(),
            forall|j: int| 0 <= j < i ==> bv[j] == pv[j],
        decreases bc@.len() - i,
    {
        proof {
            assert(bv[i as int] == bc@[i as int]@);
            assert(pv[i as int] == pc@[i as int]@);
        }
        let same = bc[i] == pc[i];
        if !same {
            proof {
                assert(bv[i as int] != pv[i as int]);
                assert(!(bv =~= pv.subrange(0, bv.len() as int)));
                assert(pv.subrange(0, bv.len() as int)[i as int] == pv[i as int]);
            }
            return false;
        }
        i = i + 1;
    }
    proof {
        assert(bv =~= pv.subrange(0, bv.len() as int));
    }
    true
}

proof fn lemma_normal_segments_concat(a: Seq<Seq<char>>, b: Seq<Seq<char>>)
    ensures
        normal_segments(a + b) == normal_segments(a) + normal_segments(b),
    decreases b.len(),
{
    if b.len() == 0 {
        assert(a + b =~= a);
        assert(normal_segments(a) + normal_segments(b) =~= normal_segments(a));
    } else {
        lemma_normal_segments_concat(a, b.drop_last());
        assert((a + b).drop_last() =~= a + b.drop_last());
        assert((a + b).last() == b.last());
        if is_normal_segment(b.last()) {
            assert((normal_segments(a) + normal_segments(b.drop_last())).push(b.last())
                =~= normal_segments(a) + normal_segments(b.drop_last()).push(b.last()));
        }
    }
}

proof fn lemma_normal_segments_single(x: Seq<char>)
    ensures
        normal_segments(seq![x]) == (if is_normal_segment(x) {
            seq![x]
        } else {
            Seq::<Seq<char>>::empty()
        }),
{
    assert(seq![x].drop_last() =~= Seq::<Seq<char>>::empty());
    assert(seq![x].last() == x);
    assert(normal_segments(Seq::<Seq<char>>::empty()) == Seq::<Seq<char>>::empty());
    assert(Seq::<Seq<char>>::empty().push(x) =~= seq![x]);
}

/// Splitting `base` joined with a plain name: the segments of `base` (its
/// trailing separator already accounted for) followed by the name.
proof fn lemma_split_join_path(base: Seq<char>, name: Seq<char>)
    requires
        is_plain_name(name),
        base.len() > 0,
    ensures
        ({
            let core = if base.last() == '/' { base.drop_last() } else { base };
            &&& split_on(path_join(base, name), '/') == split_on(core, '/') + seq![name]
            &&& normal_segments(split_on(base, '/')) == normal_segments(split_on(core, '/'))
            &&& path_join(base, name)[0] == base[0]
            &&& split_on(path_join(base, name), '/')[0] == split_on(base, '/')[0]
        }),
{
    let core = if base.last() == '/' { base.drop_last() } else { base };
    let joined = path_join(base, name);
    assert(name[0] != '/') by {
        assert(name.contains(name[0]) ==> name[0] != '/');
    }
    lemma_split_without_sep(name, '/');
    lemma_split_nonempty(core, '/');
    if base.last() == '/' {
        assert(joined =~= core + seq!['/'] + name);
        assert(base =~= core + seq!['/'] + Seq::<char>::empty());
        lemma_split_concat(core, name, '/');
        lemma_split_concat(core, Seq::<char>::empty(), '/');
        assert(split_on(Seq::<char>::empty(), '/') =~= seq![Seq::<char>::empty()]);
        lemma_normal_segments_concat(split_on(core, '/'), seq![Seq::<char>::empty()]);
        lemma_normal_segments_single(Seq::<char>::empty());
        assert(normal_segments(split_on(core, '/')) + Seq::<Seq<char>>::empty() =~= normal_segments(
            split_on(core, '/'),
        ));
        assert((split_on(core, '/') + seq![name])[0] == split_on(core, '/')[0]);
        assert((split_on(core, '/') + seq![Seq::<char>::empty()])[0] == split_on(core, '/')[0]);
        if core.len() > 0 {
            assert(joined[0] == core[0]);
            assert(base[0] == core[0]);
        } else {
            assert(joined[0] == '/');
            assert(base[0] == '/');
        }
    } else {
        assert(joined =~= base + seq!['/'] + name);
        lemma_split_concat(base, name, '/');
        assert((split_on(core, '/') + seq![name])[0] == split_on(core, '/')[0]);
        assert(joined[0] == base[0]);
    }
}

/// Joining a plain name that is not `.` onto a path adds exactly that one
/// component.
pub proof fn lemma_components_join(base: Seq<char>, name: Seq<char>)
    requires
        is_plain_name(name),
        name != seq!['.'],
    ensures
        path_components(path_join(base, name)) == path_components(base).push(name),
{
    let joined = path_join(base, name);
    assert(name[0] != '/') by {
        assert(name.contains(name[0]) ==> name[0] != '/');
    }
    lemma_split_without_sep(name, '/');
    lemma_normal_segments_single(name);
    if base.len() == 0 {
        assert(joined == name);
        assert(split_on(base, '/') =~= seq![Seq::<char>::empty()]);
        lemma_normal_segments_single(Seq::<char>::empty());
        assert(path_components(base) =~= Seq::<Seq<char>>::empty());
        assert(path_components(joined) =~= seq![name]);
    } else {
        let core = if base.last() == '/' { base.drop_last() } else { base };
        lemma_split_join_path(base, name);
        lemma_normal_segments_concat(split_on(core, '/'), seq![name]);
        assert(path_components(joined) =~= path_components(base).push(name));
    }
}

/// Joining any plain name onto a path stays at or below that path.
pub proof fn lemma_join_stays_below(base: Seq<char>, name: Seq<char>)
    requires
        is_plain_name(name),
    ensures
        path_starts_with(path_join(base, name), base),
{
    if name == seq!['.'] {
        let joined = path_join(base, name);
        assert(name[0] != '/');
        lemma_split_without_sep(name, '/');
        lemma_normal_segments_single(name);
        if base.len() == 0 {
            assert(split_on(base, '/') =~= seq![Seq::<char>::empty()]);
            lemma_normal_segments_single(Seq::<char>::empty());
            assert(path_components(base) =~= Seq::<Seq<char>>::empty());
        } else {
            let core = if base.last() == '/' { base.drop_last() } else { base };
            lemma_split_join_path(base, name);
            lemma_normal_segments_concat(split_on(core, '/'), seq![name]);
            assert(normal_segments(split_on(core, '/') + seq![name]) =~= normal_segments(
                split_on(core, '/'),
            ));
            assert(path_components(joined) =~= path_components(base));
        }
    } else {
        lemma_components_join(base, name);
    }
    assert(path_components(base).is_prefix_of(path_components(base).push(name)) || name
        == seq!['.']) by {
        assert(path_components(base) =~= path_components(base).push(name).subrange(
            0,
            path_components(base).len() as int,
        ));
    }
}

/// `s` without the separators and `.` segments at its end, as
/// `Path::components` skips them when read from the back.
pub open spec fn trim_trailing(s: Seq<char>) -> Seq<char>
    decreases s.len(),
{
    if s.len() > 0 && s.last() == '/' {
        trim_trailing(s.drop_last())
    } else if s.len() >= 2 && s.last() == '.' && s[s.len() - 2] == '/' {
        trim_trailing(s.drop_last())
    } else {
        s
    }
}

/// Where the last segment of `t` starts: just after its last separator.
pub open spec fn segment_start(t: Seq<char>) -> int
    decreases t.len(),
{
    if t.len() == 0 {
        0
    } else if t.last() == '/' {
        t.len() as int
    } else {
        segment_start(t.drop_last())
    }
}

/// The position of the last `.` in `seg`, or `-1` when there is none.
pub open spec fn last_dot(seg: Seq<char>) -> int
    decreases seg.len(),
{
    if seg.len() == 0 {
        -1
    } else if seg.last() == '.' {
        seg.len() - 1
    } else {
        last_dot(seg.drop_last())
    }
}

/// `s` with its extension replaced by `ext`, as `Path::with_extension` does
/// on Unix: the file name is the last normal component; its stem ends at
/// its last `.` unless that dot starts the name; the path is cut after the
/// stem and `.ext` appended (nothing for an empty `ext`). A path without a
/// file name is returned unchanged.
pub open spec fn path_with_extension(s: Seq<char>, ext: Seq<char>) -> Seq<char> {
    let t = trim_trailing(s);
    let start = segment_start(t);
    let seg = t.subrange(start, t.len() as int);
    if seg.len() == 0 || seg == seq!['.'] || seg == seq!['.', '.'] {
        s
    } else {
        let d = last_dot(seg);
        let stem_len = if d > 0 {
            d
        } else {
            seg.len() as int
        };
        let base = s.subrange(0, start + stem_len);
        if ext.len() == 0 {
            base
        } else {
            base + seq!['.'] + ext
        }
    }
}

/// The path with its extension replaced.
pub fn with_extension(path: &str, ext: &str) -> (r: String)
    ensures
        r@ == path_with_extension(path@, ext@),
{
    let n = path.unicode_len();
    // drop trailing separators and `.` segments
    let mut k: usize = n;
    proof {
        assert(path@.take(n as int) =~= path@);
    }
    while k > 0 && (path.get_char(k - 1) == '/' || (k >= 2 && path.get_char(k - 1) == '.'
        && path.get_char(k - 2) == '/'))
        invariant
            n == path@.len(),
            0 <= k <= n,
            trim_trailing(path@) == trim_trailing(path@.take(k as int)),
        decreases k,
    {
        proof {
            assert(path@.take(k as int).drop_last() =~= path@.take(k as int - 1));
            assert(path@.take(k as int).last() == path@[k as int - 1]);
            if k >= 2 {
                assert(path@.take(k as int)[k as int - 2] == path@[k as int - 2]);
            }
        }
        k = k - 1;
    }
    let ghost t = path@.take(k as int);
    proof {
        if k > 0 {
            assert(t.last() == path@[k as int - 1]);
            if k >= 2 {
                assert(t[k as int - 2] == path@[k as int - 2]);
            }
        }
        assert(trim_trailing(t) == t);
    }
    // find where the last segment starts
    let mut start: usize = k;
    proof {
        assert(t.take(k as int) =~= t);
    }
    while start > 0 && path.get_char(start - 1) != '/'
        invariant
            n == path@.len(),
            0 <= start <= k <= n,
            t == path@.take(k as int),
            segment_start(t) == segment_start(t.take(start as int)),
        decreases start,
    {
        proof {
            assert(t.take(start as int).drop_last() =~= t.take(start as int - 1));
            assert(t.take(start as int).last() == path@[start as int - 1]);
        }
        start = start - 1;
    }
    proof {
        if start > 0 {
            assert(t.take(start as int).last() == path@[start as int - 1]);
        } else {
            assert(t.take(0) =~= Seq::<char>::empty());
        }
        assert(segment_start(t) == start);
    }
    let ghost seg = t.subrange(start as int, k as int);
    proof {
        assert(seg =~= path@.subrange(start as int, k as int));
    }
    let seg_len = k - start;
    let is_dot = seg_len == 1 && path.get_char(start) == '.';
    let is_dotdot = seg_len == 2 && path.get_char(start) == '.' && path.get_char(start + 1) == '.';
    proof {
        if seg_len == 1 && path@[start as int] == '.' {
            assert(seg =~= seq!['.']);
        }
        if seg_len == 2 && path@[start as int] == '.' && path@[start as int + 1] == '.' {
            assert(seg =~= seq!['.', '.']);
        }
        if seg =~= seq!['.'] {
            assert(seg[0] == path@[start as int]);
        }
        if seg =~= seq!['.', '.'] {
            assert(seg[0] == path@[start as int]);
            assert(seg[1] == path@[start as int + 1]);
        }
    }
    if seg_len == 0 || is_dot || is_dotdot {
        return path.to_owned();
    }
    // find the last dot of the segment
    let mut d: usize = k;
    proof {
        assert(seg.take((k - start) as int) =~= seg);
    }
    while d > start && path.get_char(d - 1) != '.'
        invariant
            n == path@.len(),
            start <= d <= k <= n,
            seg == path@.subrange(start as int, k as int),
            last_dot(seg) == last_dot(seg.take((d - start) as int)),
        decreases d,
    {
        proof {
            assert(seg.take((d - start) as int).drop_last() =~= seg.take((d - start) as int - 1));
            assert(seg.take((d - start) as int).last() == path@[d as int - 1]);
        }
        d = d - 1;
    }
    proof {
        if d > start {
            assert(seg.take((d - start) as int).last() == path@[d as int - 1]);
            assert(last_dot(seg) == d - start - 1);
        } else {
            assert(seg.take(0) =~= Seq::<char>::empty());
            assert(last_dot(seg) == -1);
        }
    }
    let stem_end = if d > start + 1 {
        d - 1
    } else {
        k
    };
    let base = path.substring_char(0, stem_end).to_owned();
    proof {
        reveal_strlit(".");
        assert("."@ =~= seq!['.']);
    }
    if ext.unicode_len() == 0 {
        base
    } else {
        base.concat(".").concat(ext)
    }
}

proof fn lemma_segment_start_after_separator(p: Seq<char>, f: Seq<char>)
    requires
        p.len() == 0 || p.last() == '/',
        !f.contains('/'),
    ensures
        segment_start(p + f) == p.len(),
    decreases f.len(),
{
    if f.len() == 0 {
        assert(p + f =~= p);
        if p.len() > 0 {
            assert(p.last() == '/');
        }
    } else {
        let g = f.drop_last();
        assert(!g.contains('/')) by {
            if g.contains('/') {
                let k = choose|k: int| 0 <= k < g.len() && g[k] == '/';
                assert(f[k] == '/');
            }
        }
        lemma_segment_start_after_separator(p, g);
        assert((p + f).drop_last() =~= p + g);
        assert((p + f).last() == f[f.len() - 1]);
        assert(f.contains(f[f.len() - 1]));
    }
}

/// The backup of a file whose name is a plain name followed by
/// `.config.cfg`, in any directory, is that file's path followed by `.bak`.
pub proof fn lemma_config_backup_path(dir: Seq<char>, name: Seq<char>)
    requires
        is_plain_name(name),
    ensures
        path_with_extension(path_join(dir, name + ".config.cfg"@), "cfg.bak"@) == path_join(
            dir,
            name + ".config.cfg"@,
        ) + ".bak"@,
{
    reveal_strlit(".config.cfg");
    reveal_strlit("cfg.bak");
    reveal_strlit(".bak");
    let f = name + ".config.cfg"@;
    let j = path_join(dir, f);
    assert(f.len() == name.len() + 11);
    assert(!f.contains('/')) by {
        if f.contains('/') {
            let k = choose|k: int| 0 <= k < f.len() && f[k] == '/';
            if k < name.len() {
                assert(name[k] == '/');
                assert(name.contains('/'));
            }
        }
    }
    assert(f[0] != '/') by {
        assert(f[0] == name[0]);
        assert(name.contains(name[0]));
    }
    // the path is a prefix ending in a separator (or nothing) followed by the file name
    let p = if dir.len() == 0 {
        Seq::<char>::empty()
    } else if dir.last() == '/' {
        dir
    } else {
        dir + seq!['/']
    };
    assert(j =~= p + f);
    assert(p.len() == 0 || p.last() == '/');
    lemma_segment_start_after_separator(p, f);
    assert(j.last() == 'g');
    assert(trim_trailing(j) == j);
    assert(j.subrange(p.len() as int, j.len() as int) =~= f);
    // the last dot of the file name starts `.cfg`
    assert(last_dot(f) == f.len() - 4) by {
        let f1 = f.drop_last();
        let f2 = f1.drop_last();
        let f3 = f2.drop_last();
        assert(f.last() == 'g');
        assert(f1.last() == 'f');
        assert(f2.last() == 'c');
        assert(f3.last() == '.');
        assert(last_dot(f3) == f3.len() - 1);
        assert(last_dot(f2) == last_dot(f3));
        assert(last_dot(f1) == last_dot(f2));
        assert(last_dot(f) == last_dot(f1));
    }
    assert(j.subrange(0, p.len() + f.len() - 4) + seq!['.'] + "cfg.bak"@ =~= j + ".bak"@);
}

} // verus!
