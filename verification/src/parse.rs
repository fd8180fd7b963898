//! The Unix-style path grammar: decomposing a path string into components,
//! rendering a component sequence back to a path string, and the round-trip
//! guarantee connecting the two.
//!
//! The grammar: a path that begins with `/` starts with a Root component;
//! the rest of the string splits at `/` separators into maximal non-empty
//! runs, each of which is a Parent (`..`), Current (`.`) or Normal
//! component. Runs of repeated separators and trailing separators are
//! collapsed by decomposition, which is the grammar's only normalization.

use vstd::prelude::*;
use vstd::string::{StrSliceExecFns, StringExecFns};
use crate::component::{ComponentModel, Utf8Component};
use crate::unix::Utf8UnixComponent;

verus! {

/// The text a component contributes when a path is rendered.
pub open spec fn text_of(p: ComponentModel) -> Seq<char> {
    match p {
        ComponentModel::Root => seq!['/'],
        ComponentModel::Parent => seq!['.', '.'],
        ComponentModel::Current => seq!['.'],
        ComponentModel::Normal(t) => t,
    }
}

/// Splits the remainder `s` at separators, `acc` holding the characters of
/// the segment read so far: yields the maximal non-empty separator-free
/// runs of `acc + s`.
pub open spec fn split_rest(s: Seq<char>, acc: Seq<char>) -> Seq<Seq<char>>
    decreases s.len(),
{
    if s.len() == 0 {
        if acc.len() == 0 {
            seq![]
        } else {
            seq![acc]
        }
    } else if s[0] == '/' {
        if acc.len() == 0 {
            split_rest(s.drop_first(), seq![])
        } else {
            seq![acc] + split_rest(s.drop_first(), seq![])
        }
    } else {
        split_rest(s.drop_first(), acc.push(s[0]))
    }
}

/// The maximal non-empty separator-free runs of `s`.
pub open spec fn segments(s: Seq<char>) -> Seq<Seq<char>> {
    split_rest(s, seq![])
}

/// The component a non-empty separator-free segment stands for.
pub open spec fn classify(t: Seq<char>) -> ComponentModel {
    if t == seq!['.'] {
        ComponentModel::Current
    } else if t == seq!['.', '.'] {
        ComponentModel::Parent
    } else {
        ComponentModel::Normal(t)
    }
}

/// The components that a sequence of segments stands for.
pub open spec fn classify_all(ts: Seq<Seq<char>>) -> Seq<ComponentModel> {
    ts.map_values(|t: Seq<char>| classify(t))
}

/// The component sequence the Unix-style grammar assigns to `s`: a Root
/// marker when `s` begins with a separator, then one component for each
/// non-empty run between separators, in order.
pub open spec fn parse_model(s: Seq<char>) -> Seq<ComponentModel> {
    if s.len() > 0 && s[0] == '/' {
        seq![ComponentModel::Root] + classify_all(segments(s))
    } else {
        classify_all(segments(s))
    }
}

/// Component texts joined with `/` separators.
pub open spec fn joined(ps: Seq<ComponentModel>) -> Seq<char>
    decreases ps.len(),
{
    if ps.len() == 0 {
        seq![]
    } else if ps.len() == 1 {
        text_of(ps[0])
    } else {
        text_of(ps[0]) + seq!['/'] + joined(ps.drop_first())
    }
}

/// The rendering of a component sequence: a leading Root marker already
/// ends with the separator, so no separator is inserted after it; every
/// other adjacent pair is joined with `/`.
pub open spec fn render_model(ps: Seq<ComponentModel>) -> Seq<char> {
    if ps.len() > 0 && ps[0] is Root {
        seq!['/'] + joined(ps.drop_first())
    } else {
        joined(ps)
    }
}

/// What decomposition guarantees of a Normal component's text: non-empty,
/// free of separators, and not one of the two marker spellings.
pub open spec fn wf_text(t: Seq<char>) -> bool {
    t.len() > 0 && !t.contains('/') && t != seq!['.'] && t != seq!['.', '.']
}

pub open spec fn wf_part(p: ComponentModel) -> bool {
    match p {
        ComponentModel::Normal(t) => wf_text(t),
        _ => true,
    }
}

/// A well-formed component sequence: a Root marker stands at most at the
/// front, and every Normal component carries well-formed text.
pub open spec fn wf_parts(ps: Seq<ComponentModel>) -> bool {
    &&& forall|i: int| 0 <= i < ps.len() ==> wf_part(#[trigger] ps[i])
    &&& forall|i: int| 0 < i < ps.len() ==> !(#[trigger] ps[i] is Root)
}

/// The models of a sequence of components.
pub open spec fn models_of<'a>(cs: Seq<Utf8UnixComponent<'a>>) -> Seq<ComponentModel> {
    cs.map_values(|c: Utf8UnixComponent<'a>| c.model())
}

proof fn lemma_model_text(c: Utf8UnixComponent<'_>)
    ensures
        text_of(c.model()) == c.text(),
        (c.model() is Root) <==> (c.classification() is Root),
{
}

proof fn lemma_split_rest_wf(s: Seq<char>, acc: Seq<char>)
    requires
        !acc.contains('/'),
    ensures
        forall|i: int|
            0 <= i < split_rest(s, acc).len() ==> (#[trigger] split_rest(s, acc)[i]).len() > 0
                && !split_rest(s, acc)[i].contains('/'),
    decreases s.len(),
{
    let res = split_rest(s, acc);
    if s.len() == 0 {
        if acc.len() > 0 {
            assert forall|i: int| 0 <= i < res.len() implies (#[trigger] res[i]).len() > 0
                && !res[i].contains('/') by {
                assert(res[i] == acc);
            }
        }
    } else if s[0] == '/' {
        lemma_split_rest_wf(s.drop_first(), seq![]);
        let rec = split_rest(s.drop_first(), seq![]);
        if acc.len() > 0 {
            assert(res == seq![acc] + rec);
            assert forall|i: int| 0 <= i < res.len() implies (#[trigger] res[i]).len() > 0
                && !res[i].contains('/') by {
                if i == 0 {
                    assert(res[i] == acc);
                } else {
                    assert(res[i] == rec[i - 1]);
                }
            }
        } else {
            assert(res == rec);
        }
    } else {
        assert(!acc.push(s[0]).contains('/')) by {
            if acc.push(s[0]).contains('/') {
                let i = choose|i: int| 0 <= i < acc.push(s[0]).len() && acc.push(s[0])[i] == '/';
                if i < acc.len() {
                    assert(acc[i] == '/');
                }
            }
        }
        lemma_split_rest_wf(s.drop_first(), acc.push(s[0]));
        assert(res == split_rest(s.drop_first(), acc.push(s[0])));
    }
}

proof fn lemma_classify_wf(t: Seq<char>)
    requires
        t.len() > 0,
        !t.contains('/'),
    ensures
        wf_part(classify(t)),
        !(classify(t) is Root),
{
}

/// Decomposition yields only well-formed component sequences: a Root
/// marker stands at most at the front, and every Normal component's text
/// is non-empty, separator-free and distinct from the marker spellings.
pub proof fn lemma_parse_wf(s: Seq<char>)
    ensures
        wf_parts(parse_model(s)),
{
    lemma_split_rest_wf(s, seq![]);
    let segs = segments(s);
    let parts = classify_all(segs);
    assert forall|i: int| 0 <= i < parts.len() implies wf_part(#[trigger] parts[i]) && !(
    parts[i] is Root) by {
        lemma_classify_wf(segs[i]);
    }
    if s.len() > 0 && s[0] == '/' {
        let ps = parse_model(s);
        assert forall|i: int| 0 <= i < ps.len() implies wf_part(#[trigger] ps[i]) by {
            if i > 0 {
                assert(ps[i] == parts[i - 1]);
            }
        }
        assert forall|i: int| 0 < i < ps.len() implies !(#[trigger] ps[i] is Root) by {
            assert(ps[i] == parts[i - 1]);
        }
    }
}

proof fn lemma_split_rest_shift(t: Seq<char>, s: Seq<char>, acc: Seq<char>)
    requires
        !t.contains('/'),
    ensures
        split_rest(t + s, acc) == split_rest(s, acc + t),
    decreases t.len(),
{
    if t.len() == 0 {
        assert(t + s =~= s);
        assert(acc + t =~= acc);
    } else {
        assert(t[0] != '/') by {
            if t[0] == '/' {
                assert(t.contains('/'));
            }
        }
        assert((t + s)[0] == t[0]);
        assert((t + s).drop_first() =~= t.drop_first() + s);
        assert(!t.drop_first().contains('/')) by {
            if t.drop_first().contains('/') {
                let i = choose|i: int|
                    0 <= i < t.drop_first().len() && t.drop_first()[i] == '/';
                assert(t[i + 1] == '/');
                assert(t.contains('/'));
            }
        }
        lemma_split_rest_shift(t.drop_first(), s, acc.push(t[0]));
        assert(acc.push(t[0]) + t.drop_first() =~= acc + t);
    }
}

proof fn lemma_classify_text(p: ComponentModel)
    requires
        wf_part(p),
        !(p is Root),
    ensures
        text_of(p).len() > 0,
        !text_of(p).contains('/'),
        text_of(p)[0] != '/',
        classify(text_of(p)) == p,
{
    let t = text_of(p);
    assert(!t.contains('/')) by {
        match p {
            ComponentModel::Normal(_) => {},
            _ => {
                if t.contains('/') {
                    let i = choose|i: int| 0 <= i < t.len() && t[i] == '/';
                    assert(t[i] == '.');
                }
            },
        }
    }
    assert(t[0] != '/') by {
        if t[0] == '/' {
            assert(t.contains('/'));
        }
    }
    match p {
        ComponentModel::Current => {
            assert(t == seq!['.']);
        },
        ComponentModel::Parent => {
            assert(t != seq!['.']) by {
                assert(t.len() != seq!['.'].len());
            }
        },
        _ => {},
    }
}

proof fn lemma_split_joined(ps: Seq<ComponentModel>)
    requires
        forall|i: int| 0 <= i < ps.len() ==> wf_part(#[trigger] ps[i]) && !(ps[i] is Root),
    ensures
        classify_all(segments(joined(ps))) == ps,
    decreases ps.len(),
{
    if ps.len() == 0 {
        assert(classify_all(segments(joined(ps))) =~= ps);
    } else if ps.len() == 1 {
        let t = text_of(ps[0]);
        lemma_classify_text(ps[0]);
        assert(t =~= t + Seq::<char>::empty());
        lemma_split_rest_shift(t, Seq::<char>::empty(), Seq::<char>::empty());
        assert(Seq::<char>::empty() + t =~= t);
        assert(segments(joined(ps)) == seq![t]);
        assert(classify_all(seq![t]) =~= ps);
    } else {
        let t = text_of(ps[0]);
        let rest = ps.drop_first();
        lemma_classify_text(ps[0]);
        let tail = seq!['/'] + joined(rest);
        assert(joined(ps) =~= t + tail);
        lemma_split_rest_shift(t, tail, Seq::<char>::empty());
        assert(Seq::<char>::empty() + t =~= t);
        assert(tail[0] == '/');
        assert(tail.drop_first() =~= joined(rest));
        assert(split_rest(tail, t) == seq![t] + split_rest(joined(rest), Seq::<char>::empty()));
        assert(forall|i: int| 0 <= i < rest.len() ==> wf_part(#[trigger] rest[i]) && !(
        rest[i] is Root)) by {
            assert(forall|i: int| 0 <= i < rest.len() ==> rest[i] == ps[i + 1]);
        }
        lemma_split_joined(rest);
        assert(classify_all(segments(joined(ps))) =~= ps) by {
            assert(segments(joined(ps)) == seq![t] + segments(joined(rest)));
            assert(classify(t) == ps[0]);
            assert forall|i: int| 0 <= i < ps.len() implies classify_all(
                segments(joined(ps)),
            )[i] == ps[i] by {
                if i > 0 {
                    assert((seq![t] + segments(joined(rest)))[i] == segments(joined(rest))[i
                        - 1]);
                    assert(classify_all(segments(joined(rest)))[i - 1] == rest[i - 1]);
                }
            }
        }
    }
}

/// Round-trip: re-parsing the rendering of a well-formed component
/// sequence yields exactly that sequence again.
pub proof fn lemma_render_parse(ps: Seq<ComponentModel>)
    requires
        wf_parts(ps),
    ensures
        parse_model(render_model(ps)) == ps,
{
    if ps.len() == 0 {
        assert(parse_model(render_model(ps)) =~= ps);
    } else if ps[0] is Root {
        let rest = ps.drop_first();
        let s = render_model(ps);
        assert(s == seq!['/'] + joined(rest));
        assert(s[0] == '/');
        assert(s.drop_first() =~= joined(rest));
        assert(forall|i: int| 0 <= i < rest.len() ==> wf_part(#[trigger] rest[i]) && !(
        rest[i] is Root)) by {
            assert(forall|i: int| 0 <= i < rest.len() ==> rest[i] == ps[i + 1]);
        }
        lemma_split_joined(rest);
        assert(segments(s) == split_rest(s.drop_first(), Seq::<char>::empty()));
        assert(parse_model(s) =~= ps);
    } else {
        let s = render_model(ps);
        assert(s == joined(ps));
        lemma_classify_text(ps[0]);
        assert(s[0] == text_of(ps[0])[0]);
        assert(s[0] != '/');
        assert(forall|i: int| 0 <= i < ps.len() ==> wf_part(#[trigger] ps[i]) && !(
        ps[i] is Root)) by {
            assert(forall|i: int| 0 < i < ps.len() ==> !(#[trigger] ps[i] is Root));
        }
        lemma_split_joined(ps);
        assert(parse_model(s) =~= ps);
    }
}

/// Round-trip fidelity for every path string: rendering the components of
/// `s` and decomposing the rendering yields the components of `s` again,
/// so the rendering is lexically equivalent to `s` under the grammar's
/// normalization.
pub proof fn lemma_parse_render_parse(s: Seq<char>)
    ensures
        parse_model(render_model(parse_model(s))) == parse_model(s),
{
    lemma_parse_wf(s);
    lemma_render_parse(parse_model(s));
}

fn classify_seg<'a>(s: &'a str, start: usize, end: usize) -> (r: Utf8UnixComponent<'a>)
    requires
        start < end,
        end <= s@.len(),
    ensures
        r.model() == classify(s@.subrange(start as int, end as int)),
{
    let ghost sub = s@.subrange(start as int, end as int);
    let len = end - start;
    let mut is_cur = false;
    let mut is_par = false;
    if len == 1 {
        is_cur = s.get_char(start) == '.';
    } else if len == 2 {
        let c0 = s.get_char(start);
        let c1 = s.get_char(start + 1);
        is_par = c0 == '.' && c1 == '.';
    }
    proof {
        assert(sub.len() == len);
        if len == 1 {
            assert(sub[0] == s@[start as int]);
            if s@[start as int] == '.' {
                assert(sub =~= seq!['.']);
            }
        }
        if len == 2 {
            assert(sub[0] == s@[start as int]);
            assert(sub[1] == s@[start as int + 1]);
            if s@[start as int] == '.' && s@[start as int + 1] == '.' {
                assert(sub =~= seq!['.', '.']);
            }
        }
        assert(seq!['.'].len() == 1 && seq!['.'][0] == '.');
        assert(seq!['.', '.'].len() == 2 && seq!['.', '.'][0] == '.' && seq!['.', '.'][1] == '.');
        assert(is_cur <==> sub == seq!['.']);
        assert(is_par <==> sub == seq!['.', '.']);
    }
    if is_cur {
        Utf8UnixComponent::CurDir
    } else if is_par {
        Utf8UnixComponent::ParentDir
    } else {
        let t = s.substring_char(start, end);
        Utf8UnixComponent::Normal(t)
    }
}

/// Decomposes a Unix-style path string into its sequence of components:
/// a Root component when the path begins with `/`, then a Parent, Current
/// or Normal component for each non-empty run between separators, each
/// Normal component borrowing its text from `s`.
pub fn parse_unix<'a>(s: &'a str) -> (r: Vec<Utf8UnixComponent<'a>>)
    ensures
        models_of(r@) == parse_model(s@),
        wf_parts(models_of(r@)),
{
    proof {
        lemma_parse_wf(s@);
    }
    let n = s.unicode_len();
    let mut r: Vec<Utf8UnixComponent<'a>> = Vec::new();
    if n > 0 && s.get_char(0) == '/' {
        r.push(Utf8UnixComponent::RootDir);
    }
    let mut i: usize = 0;
    let mut start: usize = 0;
    proof {
        assert(s@.skip(0) =~= s@);
        assert(s@.subrange(0, 0) =~= Seq::<char>::empty());
        if s@.len() > 0 && s@[0] == '/' {
            assert(models_of(r@) =~= seq![ComponentModel::Root]);
        } else {
            assert(models_of(r@) =~= Seq::<ComponentModel>::empty());
        }
        assert(models_of(r@) + classify_all(split_rest(s@.skip(0), s@.subrange(0, 0)))
            =~= parse_model(s@));
    }
    while i < n
        invariant
            n == s@.len(),
            start <= i <= n,
            forall|j: int| start <= j < i ==> s@[j] != '/',
            models_of(r@) + classify_all(
                split_rest(s@.skip(i as int), s@.subrange(start as int, i as int)),
            ) == parse_model(s@),
        decreases n - i,
    {
        let ghost acc = s@.subrange(start as int, i as int);
        let ghost old_models = models_of(r@);
        let c = s.get_char(i);
        proof {
            assert(s@.skip(i as int)[0] == s@[i as int]);
            assert(s@.skip(i as int).drop_first() =~= s@.skip(i + 1));
        }
        if c == '/' {
            if start < i {
                let seg = classify_seg(s, start, i);
                r.push(seg);
                proof {
                    assert(acc.len() > 0);
                    assert(split_rest(s@.skip(i as int), acc) == seq![acc] + split_rest(
                        s@.skip(i + 1),
                        Seq::<char>::empty(),
                    ));
                    assert(models_of(r@) =~= old_models.push(seg.model()));
                    assert(models_of(r@) + classify_all(
                        split_rest(s@.skip(i + 1), Seq::<char>::empty()),
                    ) =~= old_models + classify_all(split_rest(s@.skip(i as int), acc)));
                }
            } else {
                proof {
                    assert(acc.len() == 0);
                    assert(split_rest(s@.skip(i as int), acc) == split_rest(
                        s@.skip(i + 1),
                        Seq::<char>::empty(),
                    ));
                }
            }
            start = i + 1;
            proof {
                assert(s@.subrange(start as int, i + 1) =~= Seq::<char>::empty());
            }
        } else {
            proof {
                assert(acc.push(s@[i as int]) =~= s@.subrange(start as int, i + 1));
                assert(split_rest(s@.skip(i as int), acc) == split_rest(
                    s@.skip(i + 1),
                    s@.subrange(start as int, i + 1),
                ));
            }
        }
        i += 1;
    }
    proof {
        assert(s@.skip(n as int) =~= Seq::<char>::empty());
    }
    if start < n {
        let ghost acc = s@.subrange(start as int, n as int);
        let ghost old_models = models_of(r@);
        let seg = classify_seg(s, start, n);
        r.push(seg);
        proof {
            assert(acc.len() > 0);
            assert(split_rest(s@.skip(n as int), acc) == seq![acc]);
            assert(classify_all(seq![acc]) =~= seq![classify(acc)]);
            assert(models_of(r@) =~= old_models.push(seg.model()));
            assert(models_of(r@) =~= old_models + classify_all(seq![acc]));
        }
    } else {
        proof {
            let acc = s@.subrange(start as int, n as int);
            assert(acc.len() == 0);
            assert(split_rest(s@.skip(n as int), acc) == Seq::<Seq<char>>::empty());
            assert(classify_all(Seq::<Seq<char>>::empty()) =~= Seq::<ComponentModel>::empty());
            assert(models_of(r@) + classify_all(split_rest(s@.skip(n as int), acc)) =~= models_of(
                r@,
            ));
        }
    }
    r
}

proof fn lemma_joined_take(ts: Seq<ComponentModel>, k: int)
    requires
        0 <= k < ts.len(),
    ensures
        joined(ts.take(k + 1)) == if k == 0 {
            text_of(ts[0])
        } else {
            joined(ts.take(k)) + seq!['/'] + text_of(ts[k])
        },
    decreases k,
{
    let p = ts.take(k + 1);
    if k == 0 {
        assert(p.len() == 1);
        assert(p[0] == ts[0]);
    } else {
        assert(p.len() >= 2);
        assert(p[0] == ts[0]);
        assert(p.drop_first() =~= ts.drop_first().take(k));
        lemma_joined_take(ts.drop_first(), k - 1);
        if k == 1 {
            assert(ts.drop_first()[0] == ts[1]);
            assert(ts.take(1).len() == 1 && ts.take(1)[0] == ts[0]);
            assert(joined(p) =~= joined(ts.take(1)) + seq!['/'] + text_of(ts[1]));
        } else {
            assert(ts.drop_first()[k - 1] == ts[k]);
            assert(ts.take(k).len() == k);
            assert(ts.take(k)[0] == ts[0]);
            assert(ts.take(k).drop_first() =~= ts.drop_first().take(k - 1));
            assert(joined(ts.take(k)) == text_of(ts[0]) + seq!['/'] + joined(
                ts.drop_first().take(k - 1),
            ));
            assert(joined(p) =~= joined(ts.take(k)) + seq!['/'] + text_of(ts[k]));
        }
    }
}

proof fn lemma_render_take(ps: Seq<ComponentModel>, k: int)
    requires
        0 <= k < ps.len(),
    ensures
        render_model(ps.take(k + 1)) == render_model(ps.take(k)) + (if k == 0 {
            text_of(ps[0])
        } else if k == 1 && ps[0] is Root {
            text_of(ps[1])
        } else {
            seq!['/'] + text_of(ps[k])
        }),
{
    assert(ps.take(k + 1)[0] == ps[0]);
    if k == 0 {
        assert(ps.take(0).len() == 0);
        if ps[0] is Root {
            assert(ps.take(1).drop_first() =~= Seq::<ComponentModel>::empty());
            assert(render_model(ps.take(1)) =~= seq!['/']);
            assert(text_of(ps[0]) == seq!['/']);
            assert(render_model(ps.take(0)) + text_of(ps[0]) =~= seq!['/']);
        } else {
            assert(ps.take(1)[0] == ps[0]);
            assert(render_model(ps.take(0)) + text_of(ps[0]) =~= text_of(ps[0]));
        }
    } else if ps[0] is Root {
        let rest = ps.drop_first();
        assert(ps.take(k + 1).drop_first() =~= rest.take(k));
        assert(ps.take(k).drop_first() =~= rest.take(k - 1));
        assert(ps.take(k)[0] == ps[0]);
        if k == 1 {
            assert(rest.take(1).len() == 1 && rest.take(1)[0] == ps[1]);
            assert(rest.take(0).len() == 0);
            assert(render_model(ps.take(2)) =~= render_model(ps.take(1)) + text_of(ps[1]));
        } else {
            lemma_joined_take(rest, k - 1);
            assert(rest[k - 1] == ps[k]);
            assert(render_model(ps.take(k + 1)) =~= render_model(ps.take(k)) + (seq!['/']
                + text_of(ps[k])));
        }
    } else {
        lemma_joined_take(ps, k);
        assert(ps.take(k)[0] == ps[0]);
        assert(render_model(ps.take(k + 1)) =~= render_model(ps.take(k)) + (seq!['/'] + text_of(
            ps[k],
        )));
    }
}

/// Renders a component sequence back to a path string: component texts
/// joined with `/`, with no separator inserted after a leading root
/// marker.
pub fn render_unix<'a>(components: &Vec<Utf8UnixComponent<'a>>) -> (r: String)
    ensures
        r@ == render_model(models_of(components@)),
{
    let ghost ms = models_of(components@);
    let mut out = String::new();
    let n = components.len();
    let mut i: usize = 0;
    proof {
        assert(ms.take(0) =~= Seq::<ComponentModel>::empty());
    }
    while i < n
        invariant
            n == components@.len(),
            i <= n,
            ms == models_of(components@),
            out@ == render_model(ms.take(i as int)),
        decreases n - i,
    {
        proof {
            lemma_render_take(ms, i as int);
            lemma_model_text(components@[i as int]);
            lemma_model_text(components@[0]);
            reveal_strlit("/");
            assert("/"@ =~= seq!['/']);
        }
        let first_root = i == 1 && components[0].is_root();
        if i > 0 && !first_root {
            out.append("/");
        }
        out.append(components[i].as_str());
        i += 1;
    }
    proof {
        assert(ms.take(n as int) =~= ms);
    }
    out
}

} // verus!
