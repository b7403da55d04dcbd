//! The order of versions.

use vstd::prelude::*;

use crate::canonical;
use crate::grammar::{LocalPart, PreLetter, VersionSpec};
use crate::order;

verus! {

/// A release without the zeros at its end. A release of zeros alone leaves nothing.
pub open spec fn trim_release(r: Seq<nat>) -> Seq<nat>
    decreases r.len(),
{
    if r.len() > 0 && r.last() == 0 {
        trim_release(r.drop_last())
    } else {
        r
    }
}

/// The stages of a release in their order: a development release alone, alpha, beta, release
/// candidate, and last what is no pre-release.
pub open spec fn pre_rank(v: VersionSpec) -> int {
    match v.pre {
        Some((PreLetter::A, _)) => 0,
        Some((PreLetter::B, _)) => 1,
        Some((PreLetter::Rc, _)) => 2,
        None => if v.post is None && v.dev is Some {
            -1
        } else {
            3
        },
    }
}

/// The number of a pre-release.
pub open spec fn pre_number(v: VersionSpec) -> int {
    match v.pre {
        Some((_, n)) => n as int,
        None => 0,
    }
}

/// Post-releases come after what is none, and in the order of their numbers.
pub open spec fn post_rank(v: VersionSpec) -> int {
    match v.post {
        Some(n) => n as int,
        None => -1,
    }
}

/// How two development releases compare: by their numbers, and before what is none.
pub open spec fn compare_dev(a: Option<nat>, b: Option<nat>) -> int {
    match (a, b) {
        (Some(m), Some(n)) => m - n,
        (Some(_), None) => -1,
        (None, Some(_)) => 1,
        (None, None) => 0,
    }
}

/// How two segments of local labels compare: a text comes before a number.
pub open spec fn compare_part(a: LocalPart, b: LocalPart) -> int {
    match (a, b) {
        (LocalPart::Text(s), LocalPart::Text(t)) => order::compare_text(s, t),
        (LocalPart::Text(_), LocalPart::Number(_)) => -1,
        (LocalPart::Number(_), LocalPart::Text(_)) => 1,
        (LocalPart::Number(m), LocalPart::Number(n)) => m - n,
    }
}

/// The order of the segments of local labels.
pub open spec fn part_order() -> spec_fn(LocalPart, LocalPart) -> int {
    |a: LocalPart, b: LocalPart| compare_part(a, b)
}

/// How two local labels compare: none comes before any.
pub open spec fn compare_local(a: Option<Seq<LocalPart>>, b: Option<Seq<LocalPart>>) -> int {
    match (a, b) {
        (Some(s), Some(t)) => order::compare_seq(s, t, part_order()),
        (Some(_), None) => 1,
        (None, Some(_)) => -1,
        (None, None) => 0,
    }
}

/// How two releases compare: zeros at the end do not matter.
pub open spec fn compare_release(a: Seq<nat>, b: Seq<nat>) -> int {
    order::compare_seq(trim_release(a), trim_release(b), order::nat_order())
}

/// How the stages of two releases compare.
pub open spec fn compare_stage(a: VersionSpec, b: VersionSpec) -> int {
    order::first(
        pre_rank(a) - pre_rank(b),
        order::first(
            pre_number(a) - pre_number(b),
            order::first(post_rank(a) - post_rank(b), compare_dev(a.dev, b.dev)),
        ),
    )
}

/// How two versions compare.
pub open spec fn compare(a: VersionSpec, b: VersionSpec) -> int {
    order::first(
        a.epoch - b.epoch,
        order::first(
            compare_release(a.release, b.release),
            order::first(compare_stage(a, b), compare_local(a.local, b.local)),
        ),
    )
}

/// A version with the zeros at the end of its release left out.
pub open spec fn trimmed(v: VersionSpec) -> VersionSpec {
    VersionSpec { release: trim_release(v.release), ..v }
}

// --- Laws of the order. ---

proof fn lemma_part_order()
    ensures
        order::is_order(part_order()),
{
    assert forall|x: LocalPart, y: LocalPart|
        #[trigger] part_order()(x, y) == 0 <==> x == y by {
        if let (LocalPart::Text(s), LocalPart::Text(t)) = (x, y) {
            order::lemma_text_order(s, t, t);
        }
    }
    assert forall|x: LocalPart, y: LocalPart|
        #[trigger] part_order()(x, y) < 0 <==> part_order()(y, x) > 0 by {
        if let (LocalPart::Text(s), LocalPart::Text(t)) = (x, y) {
            order::lemma_text_order(s, t, t);
        }
    }
    assert forall|x: LocalPart, y: LocalPart, z: LocalPart|
        #![trigger part_order()(x, y), part_order()(y, z)]
        part_order()(x, y) <= 0 && part_order()(y, z) <= 0 implies part_order()(x, z) <= 0 by {
        if let (LocalPart::Text(s), LocalPart::Text(t)) = (x, y) {
            if let LocalPart::Text(u) = z {
                order::lemma_text_order(s, t, u);
            }
        }
    }
}

proof fn lemma_local_order(
    a: Option<Seq<LocalPart>>,
    b: Option<Seq<LocalPart>>,
    c: Option<Seq<LocalPart>>,
)
    ensures
        compare_local(a, b) == 0 <==> a == b,
        compare_local(a, b) < 0 <==> compare_local(b, a) > 0,
        compare_local(a, b) <= 0 && compare_local(b, c) <= 0 ==> compare_local(a, c) <= 0,
{
    lemma_part_order();
    if let (Some(s), Some(t)) = (a, b) {
        order::lemma_seq_order(s, t, t, part_order());
        if let Some(u) = c {
            order::lemma_seq_order(s, t, u, part_order());
        }
    }
}

/// Releases are in a total order, but for zeros at their ends.
pub proof fn lemma_release_order(a: Seq<nat>, b: Seq<nat>, c: Seq<nat>)
    ensures
        compare_release(a, b) == 0 <==> trim_release(a) == trim_release(b),
        compare_release(a, b) < 0 <==> compare_release(b, a) > 0,
        compare_release(a, b) <= 0 && compare_release(b, c) <= 0 ==> compare_release(a, c) <= 0,
{
    order::lemma_seq_order(
        trim_release(a),
        trim_release(b),
        trim_release(c),
        order::nat_order(),
    );
}

/// Versions are in a total order: of two versions one comes first or they are equal, turning
/// them round turns the answer round, and the order is transitive. Two versions are equal
/// exactly where they say the same but for zeros at the end of the release.
pub proof fn law_total_order(a: VersionSpec, b: VersionSpec, c: VersionSpec)
    ensures
        compare(a, b) == 0 <==> trimmed(a) == trimmed(b),
        compare(a, b) < 0 <==> compare(b, a) > 0,
        compare(a, b) <= 0 && compare(b, c) <= 0 ==> compare(a, c) <= 0,
        compare(a, b) < 0 && compare(b, c) <= 0 ==> compare(a, c) < 0,
        compare(a, b) <= 0 && compare(b, c) < 0 ==> compare(a, c) < 0,
{
    lemma_release_order(a.release, b.release, c.release);
    lemma_release_order(b.release, a.release, c.release);
    lemma_release_order(b.release, c.release, a.release);
    lemma_release_order(c.release, b.release, a.release);
    lemma_release_order(c.release, a.release, b.release);
    lemma_release_order(a.release, c.release, b.release);
    lemma_local_order(a.local, b.local, c.local);
    lemma_local_order(b.local, a.local, c.local);
    lemma_local_order(b.local, c.local, a.local);
    lemma_local_order(c.local, b.local, a.local);
    lemma_local_order(c.local, a.local, b.local);
    lemma_local_order(a.local, c.local, b.local);
}

proof fn lemma_trim_zeros(r: Seq<nat>, n: nat)
    ensures
        trim_release(r + Seq::new(n, |i: int| 0nat)) == trim_release(r),
    decreases n,
{
    let z = Seq::new(n, |i: int| 0nat);
    if n == 0 {
        assert(r + z =~= r);
    } else {
        let m = (n - 1) as nat;
        assert((r + z).drop_last() =~= r + Seq::new(m, |i: int| 0nat));
        lemma_trim_zeros(r, m);
    }
}

/// Zeros at the end of a release do not matter: `1.0.0`, `1.0` and `1` are one version.
pub proof fn law_trailing_zeros(v: VersionSpec, n: nat)
    ensures
        compare(v, VersionSpec { release: v.release + Seq::new(n, |i: int| 0nat), ..v }) == 0,
{
    lemma_trim_zeros(v.release, n);
    let w = VersionSpec { release: v.release + Seq::new(n, |i: int| 0nat), ..v };
    law_total_order(v, w, v);
}

/// The epoch comes before everything else.
pub proof fn law_epoch_first(a: VersionSpec, b: VersionSpec)
    requires
        a.epoch < b.epoch,
    ensures
        compare(a, b) < 0,
{
}

/// Whether two versions have the same epoch and, but for zeros at its end, the same release.
pub open spec fn same_base(a: VersionSpec, b: VersionSpec) -> bool {
    a.epoch == b.epoch && trim_release(a.release) == trim_release(b.release)
}

/// Within one release, development releases come first, and then alphas, betas, release
/// candidates, the release itself and its post-releases, whatever their local labels are.
pub proof fn law_stages(a: VersionSpec, b: VersionSpec)
    requires
        same_base(a, b),
        pre_rank(a) < pre_rank(b) || (pre_rank(a) == 3 && pre_rank(b) == 3 && a.post is None
            && b.post is Some),
    ensures
        compare(a, b) < 0,
{
    lemma_release_order(a.release, b.release, b.release);
}

/// A development release of a version comes before that version.
pub proof fn law_dev_before(v: VersionSpec, n: nat)
    requires
        v.dev is None,
    ensures
        compare(VersionSpec { dev: Some(n), ..v }, v) < 0,
{
    lemma_release_order(v.release, v.release, v.release);
}

/// A version comes before its post-releases, if it is none itself.
pub proof fn law_post_after(v: VersionSpec, n: nat)
    requires
        v.post is None,
        v.dev is None,
    ensures
        compare(v, VersionSpec { post: Some(n), ..v }) < 0,
{
    lemma_release_order(v.release, v.release, v.release);
}

/// A version without a local label comes before the same version with one.
pub proof fn law_local_after(v: VersionSpec, l: Seq<LocalPart>)
    requires
        v.local is None,
    ensures
        compare(v, VersionSpec { local: Some(l), ..v }) < 0,
{
    lemma_release_order(v.release, v.release, v.release);
}

/// Within local labels a text comes before a number, and a label before its extensions.
pub proof fn law_local_labels(v: VersionSpec, l: Seq<LocalPart>, t: Seq<char>, n: nat)
    ensures
        ({
            let with = |m: Seq<LocalPart>| VersionSpec { local: Some(m), ..v };
            &&& compare(with(l.push(LocalPart::Text(t))), with(l.push(LocalPart::Number(n)))) < 0
            &&& compare(with(l), with(l.push(LocalPart::Number(n)))) < 0
            &&& compare(with(l), with(l.push(LocalPart::Text(t)))) < 0
        }),
{
    lemma_release_order(v.release, v.release, v.release);
    lemma_part_order();
    lemma_label_push(l, LocalPart::Text(t), LocalPart::Number(n));
    lemma_label_push(l, LocalPart::Number(n), LocalPart::Text(t));
}

proof fn lemma_label_push(l: Seq<LocalPart>, p: LocalPart, q: LocalPart)
    ensures
        order::compare_seq(l.push(p), l.push(q), part_order()) == order::first(
            compare_part(p, q),
            0,
        ),
        order::compare_seq(l, l.push(p), part_order()) < 0,
    decreases l.len(),
{
    lemma_part_order();
    let a = l.push(p);
    let b = l.push(q);
    if l.len() > 0 {
        lemma_label_push(l.skip(1), p, q);
        assert(a.skip(1) =~= l.skip(1).push(p));
        assert(b.skip(1) =~= l.skip(1).push(q));
        assert(part_order()(l[0], l[0]) == 0);
    } else {
        let none = Seq::<LocalPart>::empty();
        assert(a.skip(1) =~= none);
        assert(b.skip(1) =~= none);
        assert(a[0] == p && b[0] == q);
        assert(order::compare_seq(none, none, part_order()) == 0);
        assert(order::compare_seq(a, b, part_order()) == order::first(
            part_order()(p, q),
            order::compare_seq(none, none, part_order()),
        ));
    }
}

/// Equal versions have the same canonical text once the zeros at the end of the release are
/// left out.
pub proof fn law_equal_text(a: VersionSpec, b: VersionSpec)
    requires
        compare(a, b) == 0,
    ensures
        canonical::render(trimmed(a)) == canonical::render(trimmed(b)),
{
    law_total_order(a, b, b);
}

} // verus!
