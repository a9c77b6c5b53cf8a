//! Read-only queries: the component inventory (`list_components`), the script
//! components, the call-rate and security-group catalogues, and the resolution of
//! group-relative paths (`SelectedTrigger` and component references).
use vstd::prelude::*;
use crate::{EditError, ErrV};
use crate::text::{
    chars_of, string_of, subvec, push_all, push_str, seq_eq, eq_str, has_prefix, starts_with_str,
    find_seq, find_exec, count_char, count_char_exec, trim, trim_exec, repeat, push_repeat,
};
use crate::xml::{
    Doc, NodeV, XmlNode, parse_doc, doc_model, parse_err, node_wf, last_of, is_elem, attr_val,
    has_attr, is_real_component, is_real_component_exec, first_child, is_elem_str, attr_value_str,
};
use crate::props::{props_of, default_in, user_tags, user_tags_exec, view_all};
use crate::sort::{KeyOrder, ins, isort, isort_exec, lex_le, sorted_by, lemma_isort};
use crate::edits::{script_relpath_spec, script_relpath_chars};

verus! {

// ---- dotted paths ------------------------------------------------------------------

/// `s.split('.')`: the dot-separated segments of `s`.
pub open spec fn split_dot(s: Seq<char>) -> Seq<Seq<char>>
    decreases s.len(),
{
    if s.len() == 0 {
        seq![Seq::empty()]
    } else {
        let r = split_dot(s.drop_last());
        if s.last() == '.' {
            r.push(Seq::empty())
        } else {
            r.update(r.len() - 1, r.last().push(s.last()))
        }
    }
}

/// `segs.join(".")`.
pub open spec fn join_dot(segs: Seq<Seq<char>>) -> Seq<char>
    decreases segs.len(),
{
    if segs.len() == 0 {
        Seq::empty()
    } else if segs.len() == 1 {
        segs[0]
    } else {
        join_dot(segs.drop_last()) + "."@ + segs.last()
    }
}

pub proof fn lemma_split_dot_len(s: Seq<char>)
    ensures
        split_dot(s).len() == count_char(s, '.') + 1,
    decreases s.len(),
{
    if s.len() > 0 {
        lemma_split_dot_len(s.drop_last());
    }
}

/// Joining the segments of a path gives the path back.
pub proof fn lemma_join_split(s: Seq<char>)
    ensures
        join_dot(split_dot(s)) == s,
        split_dot(s).len() >= 1,
    decreases s.len(),
{
    reveal_strlit(".");
    if s.len() > 0 {
        let u = s.drop_last();
        lemma_join_split(u);
        let r = split_dot(u);
        if s.last() == '.' {
            assert(r.push(Seq::<char>::empty()).drop_last() =~= r);
            assert(s =~= u + "."@ + Seq::<char>::empty());
        } else {
            let r2 = r.update(r.len() - 1, r.last().push(s.last()));
            if r.len() == 1 {
                assert(s =~= r[0].push(s.last()));
            } else {
                assert(r2.drop_last() =~= r.drop_last());
                assert(u == join_dot(r));
                assert(join_dot(r) == join_dot(r.drop_last()) + "."@ + r.last());
                assert(s =~= u.push(s.last()));
                assert(join_dot(r2) == join_dot(r2.drop_last()) + "."@ + r2.last());
                assert(s =~= join_dot(r.drop_last()) + "."@ + r.last().push(s.last()));
            }
        }
    }
}

/// `s` with every leading `Parent.` removed, and how many were removed.
pub open spec fn strip_parents(t: Seq<char>) -> (nat, Seq<char>)
    decreases t.len(),
{
    if has_prefix(t, "Parent."@) && t.len() >= 7 {
        let r = strip_parents(t.skip(7));
        ((r.0 + 1) as nat, r.1)
    } else {
        (0, t)
    }
}

/// `resolve_trigger(owner, trigger)`: climb one group per leading `Parent.` from
/// the owner's own path, then append the rest of the trigger.
pub open spec fn resolve_trigger_spec(owner: Seq<char>, trigger: Seq<char>) -> Option<Seq<char>> {
    let segs = split_dot(owner);
    let (climb, rest) = strip_parents(trigger);
    if climb > segs.len() {
        None
    } else {
        let anc = segs.take(segs.len() - climb);
        if anc.len() == 0 {
            Some(rest)
        } else {
            Some(join_dot(anc) + "."@ + rest)
        }
    }
}

/// Number of leading segments two segment lists share.
pub open spec fn common_len(a: Seq<Seq<char>>, b: Seq<Seq<char>>) -> nat
    decreases a.len(),
{
    if a.len() == 0 || b.len() == 0 || a[0] != b[0] {
        0
    } else {
        1 + common_len(a.drop_first(), b.drop_first())
    }
}

/// `build_trigger(owner, clock)`: a group-relative trigger from `owner` to the
/// absolute `clock` — one `Parent.` per owner segment below the longest common
/// prefix, then the clock's remaining segments.
pub open spec fn build_trigger_spec(owner: Seq<char>, clock: Seq<char>) -> Seq<char> {
    let o = split_dot(owner);
    let c = split_dot(clock);
    let k = common_len(o, c);
    repeat("Parent."@, (o.len() - k) as nat) + join_dot(c.skip(k as int))
}

pub open spec fn strs_view(v: Seq<String>) -> Seq<Seq<char>> {
    v.map_values(|x: String| x@)
}

pub open spec fn opt_view(o: Option<String>) -> Option<Seq<char>> {
    match o {
        Some(x) => Some(x@),
        None => None,
    }
}

/// The segments of `s`, split at each `.`.
pub fn split_dot_exec(s: &Vec<char>) -> (r: Vec<Vec<char>>)
    ensures
        view_all(r@) == split_dot(s@),
{
    let mut r: Vec<Vec<char>> = Vec::new();
    r.push(Vec::new());
    let mut i: usize = 0;
    assert(s@.take(0) =~= Seq::<char>::empty());
    assert(view_all(r@) =~= seq![Seq::<char>::empty()]);
    while i < s.len()
        invariant
            i <= s.len(),
            view_all(r@) == split_dot(s@.take(i as int)),
            r.len() >= 1,
        decreases s.len() - i,
    {
        assert(s@.take(i + 1).drop_last() =~= s@.take(i as int));
        let ghost before = view_all(r@);
        if s[i] == '.' {
            r.push(Vec::new());
            assert(view_all(r@) =~= before.push(Seq::<char>::empty()));
        } else {
            let k = r.len() - 1;
            let mut last = r.pop().unwrap();
            last.push(s[i]);
            r.push(last);
            assert(view_all(r@) =~= before.update(k as int, before[k as int].push(s@[i as int])));
        }
        i = i + 1;
    }
    assert(s@.take(i as int) =~= s@);
    r
}

/// Join segments with `.`.
pub fn join_dot_exec(segs: &Vec<Vec<char>>, n: usize) -> (r: Vec<char>)
    requires
        n <= segs.len(),
    ensures
        r@ == join_dot(view_all(segs@).take(n as int)),
{
    let mut r: Vec<char> = Vec::new();
    let mut i: usize = 0;
    assert(view_all(segs@).take(0) =~= Seq::<Seq<char>>::empty());
    while i < n
        invariant
            i <= n <= segs.len(),
            r@ == join_dot(view_all(segs@).take(i as int)),
        decreases n - i,
    {
        let ghost t = view_all(segs@).take(i + 1);
        assert(t.drop_last() =~= view_all(segs@).take(i as int));
        assert(t.last() == segs@[i as int]@);
        if i > 0 {
            push_str(&mut r, ".");
        } else {
            assert(t =~= seq![segs@[0]@]);
            assert(r@ =~= Seq::<char>::empty());
        }
        push_all(&mut r, &segs[i]);
        i = i + 1;
    }
    r
}

fn strip_parents_exec(t: &Vec<char>) -> (r: (usize, Vec<char>))
    ensures
        r.0 == strip_parents(t@).0,
        r.1@ == strip_parents(t@).1,
{
    let mut k: usize = 0;
    let mut rest = subvec(t, 0, t.len());
    assert(rest@ =~= t@);
    while starts_with_str(&rest, "Parent.")
        invariant
            k <= t.len(),
            rest@.len() + 7 * k == t@.len(),
            strip_parents(t@) == ((strip_parents(rest@).0 + k) as nat, strip_parents(rest@).1),
        decreases rest.len(),
    {
        proof {
            reveal_strlit("Parent.");
        }
        rest = subvec(&rest, 7, rest.len());
        k = k + 1;
    }
    proof {
        reveal_strlit("Parent.");
    }
    (k, rest)
}

/// Resolve a group-relative `SelectedTrigger` from `owner` to an absolute path:
/// one `Parent.` climbs one segment of the owner's own path. `None` when the
/// trigger climbs above the root.
pub fn resolve_trigger(owner: &str, trigger: &str) -> (r: Option<String>)
    ensures
        opt_view(r) == resolve_trigger_spec(owner@, trigger@),
{
    let o = chars_of(owner);
    let t = chars_of(trigger);
    let segs = split_dot_exec(&o);
    let (climb, rest) = strip_parents_exec(&t);
    if climb > segs.len() {
        return None;
    }
    let n = segs.len() - climb;
    proof {
        assert(view_all(segs@).take(n as int).len() == n);
    }
    if n == 0 {
        return Some(string_of(&rest));
    }
    let mut out = join_dot_exec(&segs, n);
    push_str(&mut out, ".");
    push_all(&mut out, &rest);
    Some(string_of(&out))
}

/// The group-relative trigger from `owner` to the absolute clock path.
pub fn build_trigger(owner: &str, abs_clock: &str) -> (r: String)
    ensures
        r@ == build_trigger_spec(owner@, abs_clock@),
{
    let o = split_dot_exec(&chars_of(owner));
    let c = split_dot_exec(&chars_of(abs_clock));
    let ghost ov = view_all(o@);
    let ghost cv = view_all(c@);
    let mut k: usize = 0;
    assert(ov.skip(0) =~= ov);
    assert(cv.skip(0) =~= cv);
    while k < o.len() && k < c.len() && seq_eq(&o[k], &c[k])
        invariant
            k <= o.len(),
            k <= c.len(),
            ov == view_all(o@),
            cv == view_all(c@),
            common_len(ov, cv) == k + common_len(ov.skip(k as int), cv.skip(k as int)),
        decreases o.len() - k,
    {
        assert(ov.skip(k as int).drop_first() =~= ov.skip(k + 1));
        assert(cv.skip(k as int).drop_first() =~= cv.skip(k + 1));
        k = k + 1;
    }
    proof {
        if k < o.len() && k < c.len() {
            assert(ov.skip(k as int)[0] != cv.skip(k as int)[0]);
        }
    }
    let mut out: Vec<char> = Vec::new();
    let mut par: Vec<char> = Vec::new();
    push_str(&mut par, "Parent.");
    push_repeat(&mut out, &par, o.len() - k);
    let mut tail: Vec<Vec<char>> = Vec::new();
    let mut j: usize = k;
    while j < c.len()
        invariant
            k <= j <= c.len(),
            cv == view_all(c@),
            view_all(tail@) == cv.subrange(k as int, j as int),
        decreases c.len() - j,
    {
        let s = subvec(&c[j], 0, c[j].len());
        assert(s@ =~= cv[j as int]);
        let ghost before = view_all(tail@);
        tail.push(s);
        assert(view_all(tail@) =~= before.push(cv[j as int]));
        assert(view_all(tail@) =~= cv.subrange(k as int, j + 1));
        j = j + 1;
    }
    let tl = join_dot_exec(&tail, tail.len());
    assert(view_all(tail@).take(tail.len() as int) =~= cv.skip(k as int));
    push_all(&mut out, &tl);
    assert(out@ =~= repeat("Parent."@, (o.len() - k) as nat) + join_dot(cv.skip(k as int)));
    string_of(&out)
}

// ---- the trigger round trip -------------------------------------------------------

/// No segment of a split path holds a dot.
proof fn lemma_split_no_dot(s: Seq<char>)
    ensures
        forall|j: int, i: int|
            0 <= j < split_dot(s).len() && 0 <= i < split_dot(s)[j].len() ==> split_dot(s)[j][i] != '.',
    decreases s.len(),
{
    if s.len() > 0 {
        lemma_split_no_dot(s.drop_last());
        lemma_join_split(s.drop_last());
    }
}

/// Joining two non-empty segment lists puts one dot between their joins.
proof fn lemma_join_concat(a: Seq<Seq<char>>, b: Seq<Seq<char>>)
    requires
        a.len() >= 1,
        b.len() >= 1,
    ensures
        join_dot(a + b) == join_dot(a) + "."@ + join_dot(b),
    decreases b.len(),
{
    if b.len() == 1 {
        assert((a + b).drop_last() =~= a);
    } else {
        lemma_join_concat(a, b.drop_last());
        assert((a + b).drop_last() =~= a + b.drop_last());
        assert(join_dot(a + b) =~= join_dot(a) + "."@ + join_dot(b));
    }
}

/// Two paths agree on their first `common_len` segments.
proof fn lemma_common_prefix(a: Seq<Seq<char>>, b: Seq<Seq<char>>)
    ensures
        common_len(a, b) <= a.len(),
        common_len(a, b) <= b.len(),
        a.take(common_len(a, b) as int) == b.take(common_len(a, b) as int),
    decreases a.len(),
{
    if a.len() > 0 && b.len() > 0 && a[0] == b[0] {
        lemma_common_prefix(a.drop_first(), b.drop_first());
        let k = common_len(a, b) as int;
        assert(a.take(k) =~= seq![a[0]] + a.drop_first().take(k - 1));
        assert(b.take(k) =~= seq![b[0]] + b.drop_first().take(k - 1));
    } else {
        assert(a.take(0) =~= b.take(0));
    }
}

proof fn lemma_repeat_front(p: Seq<char>, n: nat)
    requires
        n >= 1,
    ensures
        repeat(p, n) == p + repeat(p, (n - 1) as nat),
    decreases n,
{
    if n > 1 {
        lemma_repeat_front(p, (n - 1) as nat);
        assert(repeat(p, n) =~= p + repeat(p, (n - 1) as nat));
    } else {
        assert(repeat(p, 0) =~= Seq::<char>::empty());
        assert(repeat(p, 1) =~= p);
    }
}

/// Stripping `n` copies of `Parent.` in front of a rest that does not itself
/// start with `Parent.` gives back `n` and the rest.
proof fn lemma_strip_repeat(n: nat, r: Seq<char>)
    requires
        !has_prefix(r, "Parent."@),
    ensures
        strip_parents(repeat("Parent."@, n) + r) == (n, r),
    decreases n,
{
    reveal_strlit("Parent.");
    if n == 0 {
        assert(repeat("Parent."@, 0) + r =~= r);
    } else {
        lemma_repeat_front("Parent."@, n);
        let t = repeat("Parent."@, n) + r;
        assert(t =~= "Parent."@ + (repeat("Parent."@, (n - 1) as nat) + r));
        assert(t.take(7) =~= "Parent."@);
        assert(t.skip(7) =~= repeat("Parent."@, (n - 1) as nat) + r);
        lemma_strip_repeat((n - 1) as nat, r);
    }
}

proof fn lemma_split_plain(t: Seq<char>)
    requires
        forall|i: int| 0 <= i < t.len() ==> t[i] != '.',
    ensures
        split_dot(t) == seq![t],
    decreases t.len(),
{
    if t.len() > 0 {
        let u = t.drop_last();
        lemma_split_plain(u);
        assert(u.push(t.last()) =~= t);
        assert(split_dot(t) == split_dot(u).update(0, u.push(t.last())));
        assert(split_dot(u).update(0, t) =~= seq![t]);
    } else {
        assert(t =~= Seq::<char>::empty());
    }
}

proof fn lemma_split_first(s: Seq<char>, k: int)
    requires
        0 <= k < s.len(),
        s[k] == '.',
        forall|i: int| 0 <= i < k ==> s[i] != '.',
    ensures
        split_dot(s)[0] == s.take(k),
        split_dot(s).len() >= 2,
    decreases s.len(),
{
    let t = s.drop_last();
    if s.len() == k + 1 {
        assert(t =~= s.take(k));
        lemma_split_plain(t);
    } else {
        lemma_split_first(t, k);
        assert(t.take(k) =~= s.take(k));
    }
}

/// A trigger of one `Parent.` per dot of the owner's path, then `Events.<leaf>`,
/// resolves to `Events.<leaf>` under the owner's first segment: for an owner under
/// `Root`, to `Root.Events.<leaf>`.
pub proof fn lemma_events_trigger_resolves(owner: Seq<char>, leaf: Seq<char>)
    ensures
        resolve_trigger_spec(owner, repeat("Parent."@, count_char(owner, '.')) + "Events."@ + leaf) == Some(
            split_dot(owner)[0] + "."@ + ("Events."@ + leaf),
        ),
        owner == "Root"@ || has_prefix(owner, "Root."@) ==> resolve_trigger_spec(
            owner,
            repeat("Parent."@, count_char(owner, '.')) + "Events."@ + leaf,
        ) == Some("Root.Events."@ + leaf),
{
    reveal_strlit("Parent.");
    reveal_strlit("Events.");
    reveal_strlit("Root");
    reveal_strlit("Root.");
    reveal_strlit("Root.Events.");
    reveal_strlit(".");
    let n = count_char(owner, '.');
    let r = "Events."@ + leaf;
    assert(!has_prefix(r, "Parent."@)) by {
        if has_prefix(r, "Parent."@) {
            assert(r.take(7)[0] == r[0]);
        }
    }
    assert(repeat("Parent."@, n) + "Events."@ + leaf =~= repeat("Parent."@, n) + r);
    lemma_strip_repeat(n, r);
    lemma_split_dot_len(owner);
    lemma_join_split(owner);
    let segs = split_dot(owner);
    assert(segs.take(segs.len() - n) =~= seq![segs[0]]);
    if owner == "Root"@ {
        lemma_split_plain(owner);
        assert("Root"@ + "."@ + r =~= "Root.Events."@ + leaf);
    } else if has_prefix(owner, "Root."@) {
        assert(owner.take(5) == "Root."@);
        assert(owner.take(5)[4] == owner[4]);
        assert forall|i: int| 0 <= i < 4 implies owner[i] != '.' by {
            assert(owner[i] == owner.take(5)[i]);
        }
        lemma_split_first(owner, 4);
        assert(owner.take(4) =~= "Root"@);
        assert("Root"@ + "."@ + r =~= "Root.Events."@ + leaf);
    }
}

/// A join of dot-free segments that starts with `Parent.` has `Parent` as its
/// first segment.
proof fn lemma_parent_first(segs: Seq<Seq<char>>)
    requires
        segs.len() >= 1,
        forall|j: int, i: int| 0 <= j < segs.len() && 0 <= i < segs[j].len() ==> segs[j][i] != '.',
        has_prefix(join_dot(segs), "Parent."@),
    ensures
        segs[0] == "Parent"@,
{
    reveal_strlit("Parent.");
    reveal_strlit("Parent");
    reveal_strlit(".");
    let s0 = segs[0];
    let t = join_dot(segs);
    assert(t.take(7)[6] == t[6]);
    assert(t[6] == '.');
    if segs.len() == 1 {
        assert(t == s0);
        assert(s0[6] != '.');
        assert(false);
    } else {
        lemma_join_concat(seq![s0], segs.drop_first());
        assert(seq![s0] + segs.drop_first() =~= segs);
        assert(join_dot(seq![s0]) == s0);
        let u = join_dot(segs.drop_first());
        assert(t == s0 + "."@ + u);
        assert((s0 + "."@ + u)[s0.len() as int] == '.');
        assert(t[s0.len() as int] == '.');
        if s0.len() < 6 {
            assert(t.take(7)[s0.len() as int] == "Parent."@[s0.len() as int]);
            assert(false);
        } else if s0.len() > 6 {
            assert(t[6] == s0[6]);
            assert(false);
        } else {
            assert(s0 =~= t.take(6));
            assert(s0 =~= "Parent"@);
        }
    }
}

/// The relative trigger that `build_trigger` writes resolves, from the same owner,
/// back to the clock it was built for — for every clock that is not an ancestor
/// of the owner (or the owner itself) and has no segment named `Parent`.
pub proof fn lemma_trigger_round_trip(owner: Seq<char>, clock: Seq<char>)
    requires
        common_len(split_dot(owner), split_dot(clock)) < split_dot(clock).len(),
        forall|j: int| 0 <= j < split_dot(clock).len() ==> split_dot(clock)[j] != "Parent"@,
    ensures
        resolve_trigger_spec(owner, build_trigger_spec(owner, clock)) == Some(clock),
{
    let o = split_dot(owner);
    let c = split_dot(clock);
    let k = common_len(o, c);
    lemma_common_prefix(o, c);
    lemma_join_split(clock);
    lemma_split_no_dot(clock);
    let tail = c.skip(k as int);
    let r = join_dot(tail);
    if has_prefix(r, "Parent."@) {
        assert forall|j: int, i: int| 0 <= j < tail.len() && 0 <= i < tail[j].len() implies tail[j][i]
            != '.' by {
            assert(tail[j] == c[j + k]);
        }
        lemma_parent_first(tail);
        assert(tail[0] == c[k as int]);
        assert(false);
    }
    lemma_strip_repeat((o.len() - k) as nat, r);
    let trig = build_trigger_spec(owner, clock);
    assert(trig == repeat("Parent."@, (o.len() - k) as nat) + r);
    assert(o.take(o.len() - (o.len() - k)) =~= o.take(k as int));
    if k == 0 {
        assert(tail =~= c);
    } else {
        lemma_join_concat(c.take(k as int), tail);
        assert(c.take(k as int) + tail =~= c);
    }
}

// ---- component references -----------------------------------------------------------

/// The group a component sits in: its path up to the last dot (itself when there
/// is no dot).
pub open spec fn group_of(referrer: Seq<char>) -> Seq<char> {
    match crate::text::rfind_seq(referrer, seq!['.']) {
        Some(i) => referrer.take(i),
        None => referrer,
    }
}

/// Leading `Parent` levels of a reference: each `Parent.` counts one, and a bare
/// trailing `Parent` counts one and leaves nothing.
pub open spec fn parent_levels(v: Seq<char>) -> (nat, Seq<char>)
    decreases v.len(),
{
    if v == "Parent"@ {
        (1, Seq::empty())
    } else if has_prefix(v, "Parent."@) && v.len() >= 7 {
        let r = parent_levels(v.skip(7));
        ((r.0 + 1) as nat, r.1)
    } else {
        (0, v)
    }
}

/// Climb `n` groups from `base`, each cutting at the last dot; `None` when a
/// climb finds no dot.
pub open spec fn climb(base: Seq<char>, n: nat) -> Option<Seq<char>>
    decreases n,
{
    if n == 0 {
        Some(base)
    } else {
        match crate::text::rfind_seq(base, seq!['.']) {
            None => None,
            Some(i) => climb(base.take(i), (n - 1) as nat),
        }
    }
}

/// `resolve_reference(referrer, value)`: `This` is the referrer's group, each
/// `Parent` climbs one further group, anything else is already absolute.
pub open spec fn resolve_reference_spec(referrer: Seq<char>, value: Seq<char>) -> Option<Seq<char>> {
    let group = group_of(referrer);
    if value == "This"@ {
        Some(group)
    } else if has_prefix(value, "This."@) {
        Some(group + "."@ + value.skip(5))
    } else if has_prefix(value, "Parent"@) {
        let (levels, rest) = parent_levels(value);
        match climb(group, levels) {
            None => None,
            Some(base) => Some(
                if rest.len() == 0 {
                    base
                } else if base.len() == 0 {
                    rest
                } else {
                    base + "."@ + rest
                },
            ),
        }
    } else {
        Some(value)
    }
}

fn group_of_exec(r: &Vec<char>) -> (g: Vec<char>)
    ensures
        g@ == group_of(r@),
{
    proof {
        crate::xml::lemma_rfind_bounds(r@, seq!['.'], r@.len() - 1);
    }
    match crate::text::rfind_char(r, '.') {
        Some(i) => {
            let g = subvec(r, 0, i);
            assert(g@ =~= r@.take(i as int));
            g
        },
        None => subvec(r, 0, r.len()),
    }
}

fn parent_levels_exec(v: &Vec<char>) -> (r: (usize, Vec<char>))
    ensures
        r.0 == parent_levels(v@).0,
        r.1@ == parent_levels(v@).1,
{
    let mut k: usize = 0;
    let mut rest = subvec(v, 0, v.len());
    assert(rest@ =~= v@);
    loop
        invariant
            k <= v.len(),
            rest@.len() + 7 * k <= v@.len(),
            parent_levels(v@) == ((parent_levels(rest@).0 + k) as nat, parent_levels(rest@).1),
        decreases rest.len(),
    {
        if eq_str(&rest, "Parent") {
            proof {
                reveal_strlit("Parent");
            }
            return (k + 1, Vec::new());
        }
        if !starts_with_str(&rest, "Parent.") {
            return (k, rest);
        }
        proof {
            reveal_strlit("Parent.");
        }
        rest = subvec(&rest, 7, rest.len());
        k = k + 1;
    }
}

/// Resolve a `This.`/`Parent.`-anchored (or absolute) reference from the referring
/// component's own `Name` to an absolute path; `None` when it climbs above the root.
#[verifier::loop_isolation(false)]
pub fn resolve_reference(referrer: &str, value: &str) -> (r: Option<String>)
    ensures
        opt_view(r) == resolve_reference_spec(referrer@, value@),
{
    let rv = chars_of(referrer);
    let v = chars_of(value);
    let group = group_of_exec(&rv);
    if eq_str(&v, "This") {
        return Some(string_of(&group));
    }
    if starts_with_str(&v, "This.") {
        proof {
            reveal_strlit("This.");
        }
        let mut out = subvec(&group, 0, group.len());
        push_str(&mut out, ".");
        let tail = subvec(&v, 5, v.len());
        push_all(&mut out, &tail);
        assert(out@ =~= group@ + "."@ + v@.skip(5));
        return Some(string_of(&out));
    }
    if starts_with_str(&v, "Parent") {
        let (levels, rest) = parent_levels_exec(&v);
        let mut base = subvec(&group, 0, group.len());
        let mut i: usize = 0;
        assert(base@ =~= group@);
        while i < levels
            invariant
                i <= levels,
                climb(group@, levels as nat) == climb(base@, (levels - i) as nat),
            decreases levels - i,
        {
            proof {
                crate::xml::lemma_rfind_bounds(base@, seq!['.'], base@.len() - 1);
            }
            match crate::text::rfind_char(&base, '.') {
                None => {
                    assert(climb(base@, (levels - i) as nat) is None);
                    assert(climb(group@, levels as nat) is None);
                    return None;
                },
                Some(j) => {
                    let nb = subvec(&base, 0, j);
                    assert(nb@ =~= base@.take(j as int));
                    base = nb;
                },
            }
            i = i + 1;
        }
        let out = if rest.len() == 0 {
            base
        } else if base.len() == 0 {
            rest
        } else {
            let mut o = base;
            push_str(&mut o, ".");
            push_all(&mut o, &rest);
            o
        };
        return Some(string_of(&out));
    }
    Some(string_of(&v))
}

/// The candidates `reference_resolves` tries: the path itself, then each prefix
/// ending just before a dot, longest first.
pub open spec fn ref_candidates(abs: Seq<char>) -> Seq<Seq<char>>
    decreases abs.len(),
{
    if abs.len() == 0 {
        seq![abs]
    } else {
        let r = ref_candidates(abs.drop_last());
        if abs.last() == '.' {
            seq![abs] + r
        } else {
            seq![abs] + r.drop_first()
        }
    }
}

/// Whether an absolute reference lands on a component — the path itself or one of
/// its ancestors (an implicit accessor child such as `.Value`). `is_component` is
/// asked about the path, then each ancestor, longest first, until it answers yes.
pub fn reference_resolves<F: Fn(&str) -> bool>(abs: &str, is_component: F) -> (r: bool)
    requires
        forall|s: &str| #[trigger] is_component.requires((s,)),
    ensures
        r ==> exists|i: int, s: &str|
            0 <= i < ref_candidates(abs@).len() && s@ == ref_candidates(abs@)[i]
                && is_component.ensures((s,), true),
        !r ==> forall|i: int|
            #![trigger ref_candidates(abs@)[i]]
            0 <= i < ref_candidates(abs@).len() ==> exists|s: &str|
                s@ == ref_candidates(abs@)[i] && #[trigger] is_component.ensures((s,), false),
{
    let v = chars_of(abs);
    let mut n: usize = v.len();
    assert(v@.take(n as int) =~= abs@);
    // candidates still to try: the prefix of length n, then its shorter ancestors
    let mut first = true;
    loop
        invariant
            n <= v.len(),
            v@ == abs@,
            forall|s: &str| #[trigger] is_component.requires((s,)),
            first ==> n == v.len(),
            ({
                let cs = ref_candidates(abs@);
                let done = ref_candidates(v@.take(n as int));
                &&& cs.len() >= done.len()
                &&& forall|i: int|
                    #![trigger cs[i]]
                    0 <= i < cs.len() - done.len() ==> exists|s: &str|
                        s@ == cs[i] && #[trigger] is_component.ensures((s,), false)
                &&& forall|i: int|
                    0 <= i < done.len() ==> cs[cs.len() - done.len() + i] == #[trigger] done[i]
            }),
        decreases n,
    {
        let ghost cs = ref_candidates(abs@);
        let ghost a = v@.take(n as int);
        let ghost done_old = ref_candidates(a);
        let ghost base = cs.len() - done_old.len();
        let cand = subvec(&v, 0, n);
        let s = string_of(&cand);
        let sref: &str = s.as_str();
        let hit = is_component(sref);
        proof {
            assert(cand@ =~= a);
            lemma_ref_candidates_head(a);
            assert(cs[base + 0] == done_old[0]);
            assert(sref@ == a);
        }
        if hit {
            proof {
                assert(0 <= base < cs.len() && sref@ == cs[base] && is_component.ensures((sref,), true));
            }
            return true;
        }
        // next candidate: the prefix before the last dot of `cand`
        let mut k = n;
        while k > 0 && v[k - 1] != '.'
            invariant
                k <= n <= v.len(),
                forall|j: int| k <= j < n ==> v@[j] != '.',
            decreases k,
        {
            k = k - 1;
        }
        if k == 0 {
            proof {
                lemma_ref_candidates_no_dot(a);
                assert forall|i: int|
                    #![trigger ref_candidates(abs@)[i]]
                    0 <= i < ref_candidates(abs@).len() implies exists|t: &str|
                        t@ == ref_candidates(abs@)[i] && #[trigger] is_component.ensures((t,), false) by {
                    if i == base {
                        assert(sref@ == cs[i] && is_component.ensures((sref,), false));
                    }
                }
            }
            return false;
        }
        proof {
            lemma_ref_candidates_step(a, k - 1);
            assert(a.take(k - 1) =~= v@.take(k - 1));
            let done_new = ref_candidates(v@.take(k - 1));
            assert(done_old == seq![a] + done_new);
            assert forall|i: int|
                #![trigger cs[i]]
                0 <= i < cs.len() - done_new.len() implies exists|t: &str|
                    t@ == cs[i] && #[trigger] is_component.ensures((t,), false) by {
                if i == base {
                    assert(sref@ == cs[i] && is_component.ensures((sref,), false));
                }
            }
            assert forall|i: int| 0 <= i < done_new.len() implies cs[cs.len() - done_new.len() + i]
                == #[trigger] done_new[i] by {
                assert(done_old[i + 1] == done_new[i]);
                assert(cs[base + (i + 1)] == done_old[i + 1]);
            }
        }
        n = k - 1;
        first = false;
    }
}

proof fn lemma_ref_candidates_head(a: Seq<char>)
    ensures
        ref_candidates(a).len() >= 1,
        ref_candidates(a)[0] == a,
    decreases a.len(),
{
    if a.len() > 0 {
        lemma_ref_candidates_head(a.drop_last());
    }
}

proof fn lemma_ref_candidates_no_dot(a: Seq<char>)
    requires
        forall|j: int| 0 <= j < a.len() ==> a[j] != '.',
    ensures
        ref_candidates(a) == seq![a],
    decreases a.len(),
{
    if a.len() > 0 {
        lemma_ref_candidates_no_dot(a.drop_last());
        assert(seq![a.drop_last()].drop_first() =~= Seq::<Seq<char>>::empty());
        assert(seq![a] + Seq::<Seq<char>>::empty() =~= seq![a]);
    }
}

/// Past the path itself, the candidates are those of the prefix before its last dot.
proof fn lemma_ref_candidates_step(a: Seq<char>, d: int)
    requires
        0 <= d < a.len(),
        a[d] == '.',
        forall|j: int| d < j < a.len() ==> a[j] != '.',
    ensures
        ref_candidates(a) == seq![a] + ref_candidates(a.take(d)),
    decreases a.len(),
{
    if d == a.len() - 1 {
        assert(a.drop_last() =~= a.take(d));
    } else {
        lemma_ref_candidates_step(a.drop_last(), d);
        assert(a.drop_last().take(d) =~= a.take(d));
        assert((seq![a.drop_last()] + ref_candidates(a.take(d))).drop_first() =~= ref_candidates(
            a.take(d),
        ));
    }
}

// ---- catalogues ------------------------------------------------------------------------

/// The `On <…>` clock leaves under `Root.Events`, in the order of the nodes.
pub open spec fn rates_from(m: Seq<NodeV>, i: int) -> Seq<Seq<char>>
    decreases m.len() - i,
{
    if i < 0 || i >= m.len() {
        Seq::empty()
    } else {
        let rest = rates_from(m, i + 1);
        if is_real_component(m[i]) && attr_val(m[i], "Classname"@) == Some("BuiltIn.EventKernel"@)
            && attr_val(m[i], "Name"@) is Some && has_prefix(
            attr_val(m[i], "Name"@).unwrap(),
            "Root.Events.On "@,
        ) {
            seq![attr_val(m[i], "Name"@).unwrap().skip(15)] + rest
        } else {
            rest
        }
    }
}

/// Stable insertion of one character sequence into a lexicographically sorted list.
pub open spec fn ins_lex(t: Seq<Seq<char>>, x: Seq<char>) -> Seq<Seq<char>>
    decreases t.len(),
{
    if t.len() == 0 {
        seq![x]
    } else if lex_le(t.last(), x) {
        t.push(x)
    } else {
        ins_lex(t.drop_last(), x).push(t.last())
    }
}

/// Lexicographic sort of character sequences (`Vec<String>::sort`).
pub open spec fn sort_lex(s: Seq<Seq<char>>) -> Seq<Seq<char>>
    decreases s.len(),
{
    if s.len() == 0 {
        Seq::empty()
    } else {
        ins_lex(sort_lex(s.drop_last()), s.last())
    }
}

proof fn lemma_ins_view(t: Seq<Vec<char>>, x: Vec<char>)
    ensures
        view_all(ins(t, x)) == ins_lex(view_all(t), x@),
    decreases t.len(),
{
    if t.len() == 0 {
        assert(view_all(seq![x]) =~= seq![x@]);
    } else {
        assert(view_all(t).last() == t.last()@);
        assert(view_all(t.drop_last()) =~= view_all(t).drop_last());
        if t.last().key_le(&x) {
            assert(view_all(t.push(x)) =~= view_all(t).push(x@));
        } else {
            lemma_ins_view(t.drop_last(), x);
            assert(view_all(ins(t.drop_last(), x).push(t.last())) =~= view_all(
                ins(t.drop_last(), x),
            ).push(t.last()@));
        }
    }
}

pub proof fn lemma_isort_view(s: Seq<Vec<char>>)
    ensures
        view_all(isort(s)) == sort_lex(view_all(s)),
    decreases s.len(),
{
    if s.len() > 0 {
        lemma_isort_view(s.drop_last());
        lemma_ins_view(isort(s.drop_last()), s.last());
        assert(view_all(s.drop_last()) =~= view_all(s).drop_last());
    }
}

pub fn to_strings(v: Vec<Vec<char>>) -> (r: Vec<String>)
    ensures
        strs_view(r@) == view_all(v@),
{
    let mut r: Vec<String> = Vec::new();
    let mut i: usize = 0;
    while i < v.len()
        invariant
            i <= v.len(),
            strs_view(r@) == view_all(v@).take(i as int),
        decreases v.len() - i,
    {
        let ghost before = strs_view(r@);
        let x = string_of(&v[i]);
        r.push(x);
        assert(strs_view(r@) =~= before.push(x@));
        assert(view_all(v@)[i as int] == v@[i as int]@);
        assert(strs_view(r@) =~= view_all(v@).take(i + 1));
        i = i + 1;
    }
    assert(view_all(v@).take(i as int) =~= view_all(v@));
    r
}

/// Every element is at or below every later one in code-point order.
pub open spec fn lex_sorted(s: Seq<Seq<char>>) -> bool {
    forall|i: int, j: int| 0 <= i < j < s.len() ==> lex_le(s[i], s[j])
}

proof fn lemma_ins_lex_members(t: Seq<Seq<char>>, x: Seq<char>)
    ensures
        forall|i: int|
            0 <= i < ins_lex(t, x).len() ==> ins_lex(t, x)[i] == x || exists|k: int|
                0 <= k < t.len() && t[k] == #[trigger] ins_lex(t, x)[i],
        ins_lex(t, x).len() == t.len() + 1,
    decreases t.len(),
{
    if t.len() == 0 {
    } else if lex_le(t.last(), x) {
        let r = t.push(x);
        assert forall|i: int| 0 <= i < r.len() implies r[i] == x || exists|k: int|
            0 <= k < t.len() && t[k] == #[trigger] r[i] by {
            if i < t.len() {
                assert(t[i] == r[i]);
            }
        }
    } else {
        let u = t.drop_last();
        lemma_ins_lex_members(u, x);
        let w = ins_lex(u, x);
        let r = w.push(t.last());
        assert forall|i: int| 0 <= i < r.len() implies r[i] == x || exists|k: int|
            0 <= k < t.len() && t[k] == #[trigger] r[i] by {
            if i == w.len() {
                assert(t[t.len() - 1] == r[i]);
            } else if w[i] != x {
                let k = choose|k: int| 0 <= k < u.len() && u[k] == #[trigger] w[i];
                assert(t[k] == r[i]);
            }
        }
    }
}

proof fn lemma_ins_lex_sorted(t: Seq<Seq<char>>, x: Seq<char>)
    requires
        lex_sorted(t),
    ensures
        lex_sorted(ins_lex(t, x)),
        ins_lex(t, x).to_multiset() =~= t.to_multiset().insert(x),
    decreases t.len(),
{
    broadcast use vstd::seq_lib::group_to_multiset_ensures;

    if t.len() == 0 {
        assert(seq![x] =~= Seq::<Seq<char>>::empty().push(x));
    } else if lex_le(t.last(), x) {
        let r = t.push(x);
        assert forall|i: int, j: int| 0 <= i < j < r.len() implies lex_le(r[i], r[j]) by {
            if j == t.len() && i < t.len() - 1 {
                crate::sort::lemma_lex_trans(t[i], t.last(), x);
            }
        }
    } else {
        let u = t.drop_last();
        assert(lex_sorted(u));
        lemma_ins_lex_sorted(u, x);
        let w = ins_lex(u, x);
        let r = w.push(t.last());
        crate::sort::lemma_lex_total(t.last(), x);
        assert(t =~= u.push(t.last()));
        lemma_ins_lex_members(u, x);
        assert forall|i: int, j: int| 0 <= i < j < r.len() implies lex_le(r[i], r[j]) by {
            if j == w.len() && w[i] != x {
                let k = choose|k: int| 0 <= k < u.len() && u[k] == w[i];
                assert(t[k] == u[k]);
                assert(lex_le(t[k], t[t.len() - 1]));
            }
        }
        assert(t.to_multiset() =~= u.to_multiset().insert(t.last()));
    }
}

/// Sorting orders the sequences by code point and keeps exactly them.
pub proof fn lemma_sort_lex(s: Seq<Seq<char>>)
    ensures
        lex_sorted(sort_lex(s)),
        sort_lex(s).to_multiset() =~= s.to_multiset(),
    decreases s.len(),
{
    broadcast use vstd::seq_lib::group_to_multiset_ensures;

    if s.len() > 0 {
        lemma_sort_lex(s.drop_last());
        lemma_ins_lex_sorted(sort_lex(s.drop_last()), s.last());
        assert(s =~= s.drop_last().push(s.last()));
    }
}

/// The rates `available_rates` lists are in code-point order, and are exactly the
/// leaves of the project's `Root.Events.On …` clocks.
pub proof fn lemma_available_rates_sorted(m: Seq<NodeV>)
    ensures
        lex_sorted(available_rates_spec(m)),
        available_rates_spec(m).to_multiset() =~= rates_from(m, 0).to_multiset(),
{
    lemma_sort_lex(rates_from(m, 0));
}

/// Node `k` is a clock `Root.Events.On <x>`.
pub open spec fn is_rate_clock(m: Seq<NodeV>, k: int, x: Seq<char>) -> bool {
    is_real_component(m[k]) && attr_val(m[k], "Classname"@) == Some("BuiltIn.EventKernel"@) && attr_val(
        m[k],
        "Name"@,
    ) == Some("Root.Events.On "@ + x)
}

proof fn lemma_rates_from(m: Seq<NodeV>, i: int, x: Seq<char>)
    requires
        0 <= i,
    ensures
        rates_from(m, i).contains(x) <==> exists|k: int| i <= k < m.len() && #[trigger] is_rate_clock(m, k, x),
    decreases m.len() - i,
{
    reveal_strlit("Root.Events.On ");
    if i < m.len() {
        lemma_rates_from(m, i + 1, x);
        let rest = rates_from(m, i + 1);
        let r = rates_from(m, i);
        let nm = attr_val(m[i], "Name"@);
        if is_real_component(m[i]) && attr_val(m[i], "Classname"@) == Some("BuiltIn.EventKernel"@) && nm is Some
            && has_prefix(nm.unwrap(), "Root.Events.On "@) {
            let y = nm.unwrap().skip(15);
            assert(r == seq![y] + rest);
            assert(nm.unwrap() =~= "Root.Events.On "@ + y);
            if r.contains(x) {
                let j = choose|j: int| 0 <= j < r.len() && r[j] == x;
                if j == 0 {
                    assert(is_rate_clock(m, i, x));
                } else {
                    assert(rest[j - 1] == x);
                }
            }
            if exists|k: int| i <= k < m.len() && #[trigger] is_rate_clock(m, k, x) {
                let k = choose|k: int| i <= k < m.len() && #[trigger] is_rate_clock(m, k, x);
                if k == i {
                    assert(("Root.Events.On "@ + x).skip(15) =~= x);
                    assert(r[0] == x);
                } else {
                    let j = choose|j: int| 0 <= j < rest.len() && rest[j] == x;
                    assert(r[j + 1] == x);
                }
            }
        } else {
            assert(r == rest);
            if is_rate_clock(m, i, x) {
                assert(("Root.Events.On "@ + x).take(15) =~= "Root.Events.On "@);
            }
        }
    }
}

/// A rate is listed exactly when the project has a clock `Root.Events.On <rate>`.
pub proof fn lemma_available_rates_are_the_clocks(m: Seq<NodeV>, x: Seq<char>)
    ensures
        available_rates_spec(m).contains(x) <==> exists|k: int| 0 <= k < m.len() && #[trigger] is_rate_clock(m, k, x),
{
    broadcast use vstd::seq_lib::to_multiset_contains;

    lemma_rates_from(m, 0, x);
    lemma_sort_lex(rates_from(m, 0));
    assert(available_rates_spec(m).to_multiset().count(x) == rates_from(m, 0).to_multiset().count(x));
}

pub open spec fn available_rates_spec(m: Seq<NodeV>) -> Seq<Seq<char>> {
    sort_lex(rates_from(m, 0))
}

/// The clock leaves (sorted) of a parsed document.
pub fn rates_of(d: &Doc) -> (r: Vec<Vec<char>>)
    ensures
        view_all(r@) == available_rates_spec(d.model()),
{
    let ghost m = d.model();
    let mut acc: Vec<Vec<char>> = Vec::new();
    let mut i: usize = 0;
    while i < d.nodes.len()
        invariant
            i <= d.nodes.len(),
            m == d.model(),
            rates_from(m, 0) == view_all(acc@) + rates_from(m, i as int),
        decreases d.nodes.len() - i,
    {
        let n = &d.nodes[i];
        let ghost before = view_all(acc@);
        if is_real_component_exec(n) {
            match (attr_value_str(n, "Classname"), attr_value_str(n, "Name")) {
                (Some(cls), Some(name)) => {
                    if eq_str(cls, "BuiltIn.EventKernel") && starts_with_str(name, "Root.Events.On ") {
                        proof {
                            reveal_strlit("Root.Events.On ");
                        }
                        let leaf = subvec(name, 15, name.len());
                        assert(leaf@ =~= name@.skip(15));
                        acc.push(leaf);
                        assert(view_all(acc@) =~= before + seq![name@.skip(15)]);
                    }
                },
                _ => {},
            }
        }
        i = i + 1;
    }
    assert(view_all(acc@) + Seq::<Seq<char>>::empty() =~= view_all(acc@));
    let ghost accv = acc@;
    let sorted = isort_exec(acc);
    proof {
        lemma_isort_view(accv);
    }
    sorted
}

/// The `On <…>` clock leaves available under `Root.Events`, sorted.
pub fn available_rates(xml: &str) -> (r: Result<Vec<String>, EditError>)
    ensures
        r matches Ok(v) ==> doc_model(xml@) matches Some(m) && strs_view(v@)
            == available_rates_spec(m),
        r matches Err(e) ==> doc_model(xml@) is None && e@ == parse_err(xml@),
{
    let d = parse_doc(xml)?;
    let rates = rates_of(&d);
    Ok(to_strings(rates))
}

/// The first `<tag>` element at or after node `i`.
pub open spec fn first_elem_from(m: Seq<NodeV>, tag: Seq<char>, i: int) -> Option<int>
    decreases m.len() - i,
{
    if i < 0 || i >= m.len() {
        None
    } else if is_elem(m[i], tag) {
        Some(i)
    } else {
        first_elem_from(m, tag, i + 1)
    }
}

/// The `Name`s of the `<SecurityRole>` elements among nodes `i..hi`.
pub open spec fn roles_from(m: Seq<NodeV>, i: int, hi: int) -> Seq<Seq<char>>
    decreases hi - i,
{
    if i < 0 || i >= hi || i >= m.len() {
        Seq::empty()
    } else {
        let rest = roles_from(m, i + 1, hi);
        if is_elem(m[i], "SecurityRole"@) && attr_val(m[i], "Name"@) is Some {
            seq![attr_val(m[i], "Name"@).unwrap()] + rest
        } else {
            rest
        }
    }
}

/// The security roles a project declares inside its first `<SecurityMgr>`, or
/// `None` when it has no `<SecurityMgr>`.
pub open spec fn declared_roles_spec(m: Seq<NodeV>) -> Option<Seq<Seq<char>>> {
    match first_elem_from(m, "SecurityMgr"@, 0) {
        None => None,
        Some(g) => Some(roles_from(m, g + 1, last_of(m, g) + 1)),
    }
}

/// The four standard security groups.
pub open spec fn standard_groups() -> Seq<Seq<char>> {
    seq!["Tune"@, "Calibration"@, "Master Calibration"@, "Resource"@]
}

pub open spec fn security_groups_spec(m: Seq<NodeV>) -> Seq<Seq<char>> {
    match declared_roles_spec(m) {
        Some(r) => r,
        None => standard_groups(),
    }
}

/// The declared security roles of a parsed document.
proof fn lemma_roles_from(m: Seq<NodeV>, i: int, hi: int, x: Seq<char>)
    requires
        0 <= i,
    ensures
        roles_from(m, i, hi).contains(x) <==> exists|k: int|
            i <= k < hi && k < m.len() && is_elem(m[k], "SecurityRole"@) && #[trigger] attr_val(m[k], "Name"@) == Some(x),
    decreases hi - i,
{
    if i < hi && i < m.len() {
        lemma_roles_from(m, i + 1, hi, x);
        let rest = roles_from(m, i + 1, hi);
        let r = roles_from(m, i, hi);
        if is_elem(m[i], "SecurityRole"@) && attr_val(m[i], "Name"@) is Some {
            assert(r == seq![attr_val(m[i], "Name"@).unwrap()] + rest);
            if r.contains(x) {
                let j = choose|j: int| 0 <= j < r.len() && r[j] == x;
                if j > 0 {
                    assert(rest[j - 1] == x);
                }
            }
            if exists|k: int| i <= k < hi && k < m.len() && is_elem(m[k], "SecurityRole"@) && #[trigger] attr_val(m[k], "Name"@) == Some(x) {
                let k = choose|k: int| i <= k < hi && k < m.len() && is_elem(m[k], "SecurityRole"@) && #[trigger] attr_val(m[k], "Name"@) == Some(x);
                if k == i {
                    assert(r[0] == x);
                } else {
                    let j = choose|j: int| 0 <= j < rest.len() && rest[j] == x;
                    assert(r[j + 1] == x);
                }
            }
        } else {
            assert(r == rest);
        }
    }
}

proof fn lemma_first_elem_bound(m: Seq<NodeV>, tag: Seq<char>, i: int)
    ensures
        first_elem_from(m, tag, i) matches Some(g) ==> i <= g < m.len(),
    decreases m.len() - i,
{
    if !(i < 0 || i >= m.len()) && !is_elem(m[i], tag) {
        lemma_first_elem_bound(m, tag, i + 1);
    }
}

/// The security groups a project accepts: when it has a `<SecurityMgr>`, exactly
/// the `Name`s of the `<SecurityRole>` elements inside the first one; otherwise
/// exactly the four standard groups.
pub proof fn lemma_security_groups_are_the_roles(m: Seq<NodeV>, x: Seq<char>)
    ensures
        first_elem_from(m, "SecurityMgr"@, 0) matches Some(g) ==> (security_groups_spec(m).contains(x) <==> exists|
            k: int,
        |
            g < k <= last_of(m, g) && k < m.len() && is_elem(m[k], "SecurityRole"@) && #[trigger] attr_val(m[k], "Name"@)
                == Some(x)),
        first_elem_from(m, "SecurityMgr"@, 0) is None ==> (security_groups_spec(m).contains(x) <==> (x == "Tune"@ || x
            == "Calibration"@ || x == "Master Calibration"@ || x == "Resource"@)),
{
    lemma_first_elem_bound(m, "SecurityMgr"@, 0);
    if let Some(g) = first_elem_from(m, "SecurityMgr"@, 0) {
        lemma_roles_from(m, g + 1, last_of(m, g) + 1, x);
    } else {
        let sg = standard_groups();
        if x == "Tune"@ { assert(sg[0] == x); }
        if x == "Calibration"@ { assert(sg[1] == x); }
        if x == "Master Calibration"@ { assert(sg[2] == x); }
        if x == "Resource"@ { assert(sg[3] == x); }
    }
}

pub fn declared_roles(d: &Doc) -> (r: Option<Vec<Vec<char>>>)
    requires
        d.wf(),
    ensures
        r matches Some(v) ==> declared_roles_spec(d.model()) == Some(view_all(v@)),
        r is None ==> declared_roles_spec(d.model()) is None,
{
    let ghost m = d.model();
    let mut g: usize = 0;
    while g < d.nodes.len() && !is_elem_str(&d.nodes[g], "SecurityMgr")
        invariant
            g <= d.nodes.len(),
            m == d.model(),
            first_elem_from(m, "SecurityMgr"@, 0) == first_elem_from(m, "SecurityMgr"@, g as int),
        decreases d.nodes.len() - g,
    {
        g = g + 1;
    }
    if g == d.nodes.len() {
        return None;
    }
    assert(node_wf(m, g as int, d.text@.len() as int));
    let hi = match d.nodes[g].last {
        Some(l) => l,
        None => 0,
    };
    let mut out: Vec<Vec<char>> = Vec::new();
    let mut i: usize = g + 1;
    while i <= hi
        invariant
            m == d.model(),
            g < i,
            hi < d.nodes.len(),
            hi == last_of(m, g as int),
            roles_from(m, g + 1, hi + 1) == view_all(out@) + roles_from(m, i as int, hi + 1),
        decreases hi + 1 - i,
    {
        let n = &d.nodes[i];
        let ghost before = view_all(out@);
        if is_elem_str(n, "SecurityRole") {
            match attr_value_str(n, "Name") {
                Some(v) => {
                    let cp = subvec(v, 0, v.len());
                    assert(cp@ =~= v@);
                    out.push(cp);
                    assert(view_all(out@) =~= before + seq![v@]);
                },
                None => {},
            }
        }
        i = i + 1;
    }
    assert(view_all(out@) + Seq::<Seq<char>>::empty() =~= view_all(out@));
    Some(out)
}

fn standard_groups_exec() -> (r: Vec<Vec<char>>)
    ensures
        view_all(r@) == standard_groups(),
{
    let mut r: Vec<Vec<char>> = Vec::new();
    r.push(chars_of("Tune"));
    r.push(chars_of("Calibration"));
    r.push(chars_of("Master Calibration"));
    r.push(chars_of("Resource"));
    assert(view_all(r@) =~= standard_groups());
    r
}

/// The security groups a value may use: the project's declared roles, or the four
/// standard groups when it declares none.
pub fn security_groups(xml: &str) -> (r: Result<Vec<String>, EditError>)
    ensures
        r matches Ok(v) ==> doc_model(xml@) matches Some(m) && strs_view(v@)
            == security_groups_spec(m),
        r matches Err(e) ==> doc_model(xml@) is None && e@ == parse_err(xml@),
{
    let d = parse_doc(xml)?;
    Ok(to_strings(security_groups_of(&d)))
}

/// The security groups of a parsed document.
pub fn security_groups_of(d: &Doc) -> (r: Vec<Vec<char>>)
    requires
        d.wf(),
    ensures
        view_all(r@) == security_groups_spec(d.model()),
{
    match declared_roles(d) {
        Some(v) => v,
        None => standard_groups_exec(),
    }
}

// ---- component inventory ------------------------------------------------------------

/// A component as [`list_components`] reports it.
#[derive(Debug)]
pub struct ComponentEntry {
    /// Fully-qualified dotted name, e.g. `Root.Engine.Speed`.
    pub path: String,
    /// Classname, e.g. `BuiltIn.Channel`.
    pub classname: String,
    /// Storage type (`<Props Type>`), if present.
    pub ty: Option<String>,
    /// Display unit (`<Props><Locale><Default Unit>`), if present.
    pub unit: Option<String>,
    /// Security level (`<Props Security>`), if present.
    pub security: Option<String>,
    /// Call rate trigger (`<Props SelectedTrigger>`), if present.
    pub call_rate: Option<String>,
    /// Physical quantity (`<Props Qty>`), if present.
    pub qty: Option<String>,
    /// User tags (`<Props><List.UserTags><Entry Value>`), in document order.
    pub tags: Vec<String>,
    /// Component comment (the `<Comment>` text, trimmed), if non-empty.
    pub comment: Option<String>,
    /// Depth in the path hierarchy (number of dots in `path`).
    pub depth: usize,
}

pub struct EntryV {
    pub path: Seq<char>,
    pub classname: Seq<char>,
    pub ty: Option<Seq<char>>,
    pub unit: Option<Seq<char>>,
    pub security: Option<Seq<char>>,
    pub call_rate: Option<Seq<char>>,
    pub qty: Option<Seq<char>>,
    pub tags: Seq<Seq<char>>,
    pub comment: Option<Seq<char>>,
    pub depth: nat,
}

impl View for ComponentEntry {
    type V = EntryV;

    open spec fn view(&self) -> EntryV {
        EntryV {
            path: self.path@,
            classname: self.classname@,
            ty: opt_view(self.ty),
            unit: opt_view(self.unit),
            security: opt_view(self.security),
            call_rate: opt_view(self.call_rate),
            qty: opt_view(self.qty),
            tags: strs_view(self.tags@),
            comment: opt_view(self.comment),
            depth: self.depth as nat,
        }
    }
}

/// An attribute of the component's `<Props>`, if both exist.
pub open spec fn props_attr(m: Seq<NodeV>, c: int, attr: Seq<char>) -> Option<Seq<char>> {
    match props_of(m, c) {
        Some(p) => attr_val(m[p], attr),
        None => None,
    }
}

/// The `Unit` of the first `<Default>` below the component's `<Props>` that has one.
pub open spec fn unit_of(m: Seq<NodeV>, c: int) -> Option<Seq<char>> {
    match props_of(m, c) {
        Some(p) => match default_in(m, p, "Unit"@, true) {
            Some(d) => attr_val(m[d], "Unit"@),
            None => None,
        },
        None => None,
    }
}

/// The texts of the children of `e` among nodes `i..hi`, concatenated.
pub open spec fn child_texts(m: Seq<NodeV>, e: int, i: int, hi: int) -> Seq<char>
    decreases hi - i,
{
    if i < 0 || i >= hi || i >= m.len() {
        Seq::empty()
    } else {
        (if m[i].parent == Some(e as usize) && m[i].text is Some {
            m[i].text.unwrap()
        } else {
            Seq::empty()
        }) + child_texts(m, e, i + 1, hi)
    }
}

/// The component's `<Comment>` text: its children's texts joined and trimmed,
/// `None` when there is no `<Comment>` or the text is blank.
pub open spec fn comment_of(m: Seq<NodeV>, c: int) -> Option<Seq<char>> {
    match first_child(m, c, "Comment"@) {
        Some(k) => {
            let t = trim(child_texts(m, k, k + 1, last_of(m, k) + 1));
            if t.len() == 0 {
                None
            } else {
                Some(t)
            }
        },
        None => None,
    }
}

pub open spec fn entry_at(m: Seq<NodeV>, c: int) -> EntryV {
    let path = attr_val(m[c], "Name"@).unwrap();
    EntryV {
        path: path,
        classname: attr_val(m[c], "Classname"@).unwrap(),
        ty: props_attr(m, c, "Type"@),
        unit: unit_of(m, c),
        security: props_attr(m, c, "Security"@),
        call_rate: props_attr(m, c, "SelectedTrigger"@),
        qty: props_attr(m, c, "Qty"@),
        tags: user_tags(m, c),
        comment: comment_of(m, c),
        depth: count_char(path, '.'),
    }
}

/// A real component that carries a `Name`.
pub open spec fn listed(n: NodeV) -> bool {
    is_real_component(n) && attr_val(n, "Name"@) is Some
}

/// The entries of the listed components among nodes `i..`, in document order.
pub open spec fn entries_from_node(m: Seq<NodeV>, i: int) -> Seq<EntryV>
    decreases m.len() - i,
{
    if i < 0 || i >= m.len() {
        Seq::empty()
    } else if listed(m[i]) {
        seq![entry_at(m, i)] + entries_from_node(m, i + 1)
    } else {
        entries_from_node(m, i + 1)
    }
}

pub open spec fn entries_view(v: Seq<ComponentEntry>) -> Seq<EntryV> {
    v.map_values(|e: ComponentEntry| e@)
}

fn opt_string(v: Option<&Vec<char>>) -> (r: Option<String>)
    ensures
        opt_view(r) == match v {
            Some(x) => Some(x@),
            None => None::<Seq<char>>,
        },
{
    match v {
        Some(x) => Some(string_of(x)),
        None => None,
    }
}

fn props_attr_exec(d: &Doc, p: Option<usize>, attr: &str) -> (r: Option<String>)
    requires
        p matches Some(k) ==> k < d.nodes.len(),
    ensures
        opt_view(r) == match p {
            Some(k) => attr_val(d.model()[k as int], attr@),
            None => None,
        },
{
    match p {
        Some(k) => opt_string(attr_value_str(&d.nodes[k], attr)),
        None => None,
    }
}

fn comment_exec(d: &Doc, c: usize) -> (r: Option<String>)
    requires
        d.wf(),
        c < d.nodes.len(),
    ensures
        opt_view(r) == comment_of(d.model(), c as int),
{
    let ghost m = d.model();
    assert(node_wf(m, c as int, d.text@.len() as int));
    match d.first_child(c, "Comment") {
        None => None,
        Some(k) => {
            assert(node_wf(m, k as int, d.text@.len() as int));
            let hi = match d.nodes[k].last {
                Some(l) => l,
                None => 0,
            };
            let mut acc: Vec<char> = Vec::new();
            let mut i: usize = k + 1;
            while i <= hi
                invariant
                    m == d.model(),
                    k < i,
                    hi < d.nodes.len(),
                    hi == last_of(m, k as int),
                    child_texts(m, k as int, k + 1, hi + 1) == acc@ + child_texts(
                        m,
                        k as int,
                        i as int,
                        hi + 1,
                    ),
                decreases hi + 1 - i,
            {
                let ghost before = acc@;
                if d.nodes[i].parent == Some(k) {
                    match &d.nodes[i].text {
                        Some(t) => push_all(&mut acc, t),
                        None => {},
                    }
                }
                assert(acc@ + child_texts(m, k as int, i + 1, hi + 1) =~= before + child_texts(
                    m,
                    k as int,
                    i as int,
                    hi + 1,
                ));
                i = i + 1;
            }
            assert(acc@ + Seq::<char>::empty() =~= acc@);
            let t = trim_exec(&acc);
            if t.len() == 0 {
                None
            } else {
                Some(string_of(&t))
            }
        },
    }
}

fn entry_exec(d: &Doc, c: usize) -> (e: ComponentEntry)
    requires
        d.wf(),
        c < d.nodes.len(),
        listed(d.model()[c as int]),
    ensures
        e@ == entry_at(d.model(), c as int),
{
    let ghost m = d.model();
    let n = &d.nodes[c];
    let name = attr_value_str(n, "Name").unwrap();
    let cls = attr_value_str(n, "Classname").unwrap();
    assert(node_wf(m, c as int, d.text@.len() as int));
    let p = d.first_child(c, "Props");
    let unit = match p {
        Some(pk) => match crate::props::find_default(d, pk, &chars_of("Unit"), true) {
            Some(dk) => opt_string(attr_value_str(&d.nodes[dk], "Unit")),
            None => None,
        },
        None => None,
    };
    let tags = to_strings(user_tags_exec(d, c));
    let depth = count_char_exec(name, '.');
    ComponentEntry {
        path: string_of(name),
        classname: string_of(cls),
        ty: props_attr_exec(d, p, "Type"),
        unit,
        security: props_attr_exec(d, p, "Security"),
        call_rate: props_attr_exec(d, p, "SelectedTrigger"),
        qty: props_attr_exec(d, p, "Qty"),
        tags,
        comment: comment_exec(d, c),
        depth,
    }
}

/// [`list_components`] on a parsed document.
pub fn list_components_doc(d: &Doc) -> (r: Vec<ComponentEntry>)
    requires
        d.wf(),
    ensures
        entries_view(r@) == entries_from_node(d.model(), 0),
{
    let ghost m = d.model();
    let mut out: Vec<ComponentEntry> = Vec::new();
    let mut i: usize = 0;
    while i < d.nodes.len()
        invariant
            i <= d.nodes.len(),
            d.wf(),
            m == d.model(),
            entries_from_node(m, 0) == entries_view(out@) + entries_from_node(m, i as int),
        decreases d.nodes.len() - i,
    {
        let n = &d.nodes[i];
        let ghost before = entries_view(out@);
        if is_real_component_exec(n) && attr_value_str(n, "Name").is_some() {
            let e = entry_exec(d, i);
            out.push(e);
            assert(entries_view(out@) =~= before + seq![entry_at(m, i as int)]);
        }
        i = i + 1;
    }
    assert(entries_view(out@) + Seq::<EntryV>::empty() =~= entries_view(out@));
    out
}

/// How many listed components stand among nodes `0..i`.
pub open spec fn listed_count(m: Seq<NodeV>, i: int) -> nat
    decreases i,
{
    if i <= 0 || i > m.len() {
        0
    } else {
        listed_count(m, i - 1) + if listed(m[i - 1]) {
            1nat
        } else {
            0nat
        }
    }
}

proof fn lemma_entries_from(m: Seq<NodeV>, i: int)
    requires
        0 <= i <= m.len(),
    ensures
        entries_from_node(m, i).len() + listed_count(m, i) == listed_count(m, m.len() as int),
        forall|k: int|
            i <= k < m.len() && listed(m[k]) ==> entries_from_node(m, i)[listed_count(m, k) - listed_count(m, i)]
                == #[trigger] entry_at(m, k),
    decreases m.len() - i,
{
    if i < m.len() {
        lemma_entries_from(m, i + 1);
        let rest = entries_from_node(m, i + 1);
        assert(listed_count(m, i + 1) == listed_count(m, i) + if listed(m[i]) { 1nat } else { 0nat });
        assert forall|k: int| i <= k < m.len() && listed(m[k]) implies entries_from_node(m, i)[listed_count(m, k)
            - listed_count(m, i)] == #[trigger] entry_at(m, k) by {
            if k == i {
                assert(entries_from_node(m, i) == seq![entry_at(m, i)] + rest);
                assert((seq![entry_at(m, i)] + rest)[0] == entry_at(m, i));
            } else {
                lemma_listed_count_mono(m, i + 1, k);
                let idx = listed_count(m, k) - listed_count(m, i + 1);
                lemma_listed_count_mono(m, k + 1, m.len() as int);
                assert(listed_count(m, k + 1) == listed_count(m, k) + 1);
                assert(idx < rest.len());
                assert(rest[idx] == entry_at(m, k));
                if listed(m[i]) {
                    assert(entries_from_node(m, i) == seq![entry_at(m, i)] + rest);
                    assert((seq![entry_at(m, i)] + rest)[idx + 1] == rest[idx]);
                } else {
                    assert(entries_from_node(m, i) == rest);
                }
            }
        }
    }
}

proof fn lemma_listed_count_mono(m: Seq<NodeV>, i: int, k: int)
    requires
        0 <= i <= k <= m.len(),
    ensures
        listed_count(m, i) <= listed_count(m, k),
    decreases k - i,
{
    if i < k {
        lemma_listed_count_mono(m, i, k - 1);
    }
}

/// The listing has one entry per listed component, in document order: the entry
/// of the listed component at node `k` stands at the position given by the number
/// of listed components before it, and reads its `Name` as the path, its
/// `Classname`, the `Type`, `Security`, `SelectedTrigger` and `Qty` of its first
/// `<Props>`, the `Unit` of the first `<Default>` there that has one, its user tags
/// and comment, and the number of dots of its path as the depth.
pub proof fn lemma_listing_entries(m: Seq<NodeV>, k: int)
    requires
        0 <= k < m.len(),
        listed(m[k]),
    ensures
        entries_from_node(m, 0).len() == listed_count(m, m.len() as int),
        listed_count(m, k) < entries_from_node(m, 0).len(),
        entries_from_node(m, 0)[listed_count(m, k) as int] == (EntryV {
            path: attr_val(m[k], "Name"@).unwrap(),
            classname: attr_val(m[k], "Classname"@).unwrap(),
            ty: props_attr(m, k, "Type"@),
            unit: unit_of(m, k),
            security: props_attr(m, k, "Security"@),
            call_rate: props_attr(m, k, "SelectedTrigger"@),
            qty: props_attr(m, k, "Qty"@),
            tags: user_tags(m, k),
            comment: comment_of(m, k),
            depth: count_char(attr_val(m[k], "Name"@).unwrap(), '.'),
        }),
{
    lemma_entries_from(m, 0);
    lemma_listed_count_mono(m, k + 1, m.len() as int);
    assert(entry_at(m, k) == entries_from_node(m, 0)[listed_count(m, k) - listed_count(m, 0)]);
}

/// A listed component whose first `<Comment>` child holds text that, joined over
/// that child's text children and trimmed, is not empty, is listed with exactly
/// that text as its comment.
pub proof fn lemma_listing_comment(m: Seq<NodeV>, k: int, q: int)
    requires
        0 <= k < m.len(),
        listed(m[k]),
        first_child(m, k, "Comment"@) == Some(q),
        trim(child_texts(m, q, q + 1, last_of(m, q) + 1)).len() > 0,
    ensures
        entries_from_node(m, 0)[listed_count(m, k) as int].comment == Some(
            trim(child_texts(m, q, q + 1, last_of(m, q) + 1)),
        ),
{
    lemma_listing_entries(m, k);
}

/// Every real component (a `<Component>` with a `Classname` and a `Name`), in
/// document order, with its type, unit, security, trigger, quantity, tags, comment
/// and depth.
pub fn list_components(xml: &str) -> (r: Result<Vec<ComponentEntry>, EditError>)
    ensures
        r matches Ok(v) ==> doc_model(xml@) matches Some(m) && entries_view(v@)
            == entries_from_node(m, 0),
        r matches Err(e) ==> doc_model(xml@) is None && e@ == parse_err(xml@),
{
    let d = parse_doc(xml)?;
    Ok(list_components_doc(&d))
}

/// A script component and the backing-script path it points at.
#[derive(Debug)]
pub struct ScriptComponent {
    /// Fully-qualified dotted name.
    pub path: String,
    /// The `Filename` relative to the project's `Scripts/` directory, or the
    /// conventional [`crate::script_relpath`] when the attribute is absent.
    pub filename: String,
}

/// A class whose components carry a script body.
pub open spec fn is_script_class(class: Seq<char>) -> bool {
    find_seq(class, "FuncUser"@) is Some || find_seq(class, "MethodUser"@) is Some
}

/// The `(path, filename)` of every script component among nodes `i..`.
pub open spec fn scripts_from(m: Seq<NodeV>, i: int) -> Seq<(Seq<char>, Seq<char>)>
    decreases m.len() - i,
{
    if i < 0 || i >= m.len() {
        Seq::empty()
    } else if listed(m[i]) && is_script_class(attr_val(m[i], "Classname"@).unwrap()) {
        let path = attr_val(m[i], "Name"@).unwrap();
        let file = match attr_val(m[i], "Filename"@) {
            Some(f) => f,
            None => script_relpath_spec(path),
        };
        seq![(path, file)] + scripts_from(m, i + 1)
    } else {
        scripts_from(m, i + 1)
    }
}

/// Node `k` is a listed script component named `p` whose script is `f`: its
/// `Filename`, or the conventional path of its name when it has none.
pub open spec fn is_script_at(m: Seq<NodeV>, k: int, p: Seq<char>, f: Seq<char>) -> bool {
    listed(m[k]) && is_script_class(attr_val(m[k], "Classname"@).unwrap()) && attr_val(m[k], "Name"@) == Some(p)
        && f == match attr_val(m[k], "Filename"@) {
        Some(x) => x,
        None => script_relpath_spec(p),
    }
}

proof fn lemma_scripts_from(m: Seq<NodeV>, i: int, p: Seq<char>, f: Seq<char>)
    requires
        0 <= i,
    ensures
        scripts_from(m, i).contains((p, f)) <==> exists|k: int| i <= k < m.len() && #[trigger] is_script_at(m, k, p, f),
    decreases m.len() - i,
{
    if i < m.len() {
        lemma_scripts_from(m, i + 1, p, f);
        let rest = scripts_from(m, i + 1);
        let r = scripts_from(m, i);
        if r != rest {
            let x = r[0];
            assert(r == seq![x] + rest);
            if r.contains((p, f)) {
                let j = choose|j: int| 0 <= j < r.len() && r[j] == (p, f);
                if j > 0 {
                    assert(rest[j - 1] == (p, f));
                } else {
                    assert(is_script_at(m, i, p, f));
                }
            }
            if exists|k: int| i <= k < m.len() && #[trigger] is_script_at(m, k, p, f) {
                let k = choose|k: int| i <= k < m.len() && #[trigger] is_script_at(m, k, p, f);
                if k == i {
                    assert(r[0] == (p, f));
                } else {
                    let j = choose|j: int| 0 <= j < rest.len() && rest[j] == (p, f);
                    assert(r[j + 1] == (p, f));
                }
            }
        }
    }
}

/// `script_components` lists `(p, f)` exactly when a listed `FuncUser`/`MethodUser`
/// component is named `p` and its script is `f` (its `Filename`, or the
/// conventional path of its name when it has none).
pub proof fn lemma_scripts_are_the_script_components(m: Seq<NodeV>, p: Seq<char>, f: Seq<char>)
    ensures
        scripts_from(m, 0).contains((p, f)) <==> exists|k: int| 0 <= k < m.len() && #[trigger] is_script_at(m, k, p, f),
{
    lemma_scripts_from(m, 0, p, f);
}

pub open spec fn scripts_view(v: Seq<ScriptComponent>) -> Seq<(Seq<char>, Seq<char>)> {
    v.map_values(|s: ScriptComponent| (s.path@, s.filename@))
}

pub fn contains_str(t: &Vec<char>, lit: &str) -> (b: bool)
    ensures
        b == (find_seq(t@, lit@) is Some),
{
    let p = chars_of(lit);
    find_exec(t, &p).is_some()
}

/// [`script_components`] on a parsed document.
pub fn script_components_doc(d: &Doc) -> (r: Vec<ScriptComponent>)
    requires
        d.wf(),
    ensures
        scripts_view(r@) == scripts_from(d.model(), 0),
{
    let ghost m = d.model();
    let mut out: Vec<ScriptComponent> = Vec::new();
    let mut i: usize = 0;
    while i < d.nodes.len()
        invariant
            i <= d.nodes.len(),
            m == d.model(),
            scripts_from(m, 0) == scripts_view(out@) + scripts_from(m, i as int),
        decreases d.nodes.len() - i,
    {
        let n = &d.nodes[i];
        let ghost before = scripts_view(out@);
        if is_real_component_exec(n) {
            match (attr_value_str(n, "Name"), attr_value_str(n, "Classname")) {
                (Some(path), Some(cls)) => {
                    if contains_str(cls, "FuncUser") || contains_str(cls, "MethodUser") {
                        let file = match attr_value_str(n, "Filename") {
                            Some(f) => string_of(f),
                            None => string_of(&script_relpath_chars(path)),
                        };
                        let sc = ScriptComponent { path: string_of(path), filename: file };
                        out.push(sc);
                        assert(scripts_view(out@) =~= before + scripts_from(m, i as int).take(1));
                    }
                },
                _ => {},
            }
        }
        i = i + 1;
    }
    assert(scripts_view(out@) + Seq::<(Seq<char>, Seq<char>)>::empty() =~= scripts_view(out@));
    out
}

/// Every script component (`FuncUser`/`FuncUserParam`/`MethodUser`) with its
/// backing `.m1scr` path, in document order.
pub fn script_components(xml: &str) -> (r: Result<Vec<ScriptComponent>, EditError>)
    ensures
        r matches Ok(v) ==> doc_model(xml@) matches Some(m) && scripts_view(v@) == scripts_from(m, 0),
        r matches Err(e) ==> doc_model(xml@) is None && e@ == parse_err(xml@),
{
    let d = parse_doc(xml)?;
    Ok(script_components_doc(&d))
}

} // verus!
