use vstd::prelude::*;
use crate::metrics::TeamId;
use crate::text::{decimal, push_char, push_decimal, push_str, string_of};
use crate::downloader::{chars_of, string_of_chars};

verus! {

broadcast use vstd::seq_lib::group_filter_ensures;

/// Length-wise third of the pitch.
#[derive(Debug, Clone, Copy, PartialEq, Eq, Hash, Structural)]
pub enum PitchThird {
    Defensive,
    Middle,
    Attacking,
}

impl PitchThird {
    /// Display text of the third.
    pub fn label(&self) -> (r: &'static str)
        ensures
            *self == PitchThird::Defensive ==> r@ == "Defensive Third"@,
            *self == PitchThird::Middle ==> r@ == "Middle Third"@,
            *self == PitchThird::Attacking ==> r@ == "Attacking Third"@,
    {
        match self {
            PitchThird::Defensive => "Defensive Third",
            PitchThird::Middle => "Middle Third",
            PitchThird::Attacking => "Attacking Third",
        }
    }
}

/// Width-wise lane of the pitch.
#[derive(Debug, Clone, Copy, PartialEq, Eq, Hash, Structural)]
pub enum PitchLane {
    Left,
    Central,
    Right,
}

impl PitchLane {
    /// Display text of the lane.
    pub fn label(&self) -> (r: &'static str)
        ensures
            *self == PitchLane::Left ==> r@ == "Left"@,
            *self == PitchLane::Central ==> r@ == "Central"@,
            *self == PitchLane::Right ==> r@ == "Right"@,
    {
        match self {
            PitchLane::Left => "Left",
            PitchLane::Central => "Central",
            PitchLane::Right => "Right",
        }
    }
}

/// Flank a cross comes from.
#[derive(Debug, Clone, Copy, PartialEq, Eq, Structural)]
pub enum CrossSide {
    Left,
    Right,
}

impl CrossSide {
    /// Display text of the side.
    pub fn label(&self) -> (r: &'static str)
        ensures
            *self == CrossSide::Left ==> r@ == "Left"@,
            *self == CrossSide::Right ==> r@ == "Right"@,
    {
        match self {
            CrossSide::Left => "Left",
            CrossSide::Right => "Right",
        }
    }
}

/// Zone of the penalty box an attacker occupies when a cross arrives.
#[derive(Debug, Clone, Copy, PartialEq, Eq, Structural)]
pub enum BoxZone {
    NearPost,
    SixYard,
    PenaltySpot,
    FarPost,
    EdgeOfBox,
}

impl BoxZone {
    /// Display text of the zone.
    pub fn label(&self) -> (r: &'static str)
        ensures
            r@ == box_zone_label(*self),
    {
        match self {
            BoxZone::NearPost => "Near post",
            BoxZone::SixYard => "6-yard",
            BoxZone::PenaltySpot => "Penalty spot",
            BoxZone::FarPost => "Far post",
            BoxZone::EdgeOfBox => "Edge of box",
        }
    }
}

/// The ball carrier of one frame: the player nearest the ball, his team,
/// whether he is within duel distance of the ball, and the nearest opponent
/// close enough to have contested it.
#[derive(Debug, Clone, Copy, PartialEq, Eq, Structural)]
pub struct CarrierSample {
    pub carrier_id: u32,
    pub team: TeamId,
    pub close_to_ball: bool,
    pub nearest_opponent: Option<u32>,
}

/// The ball changed hands between two consecutive carrier samples: another
/// player of the other team has it.
pub open spec fn is_turnover(prev: CarrierSample, cur: CarrierSample) -> bool {
    prev.team != cur.team && prev.carrier_id != cur.carrier_id
}

/// The players charged with a turnover, one entry per turnover, in order:
/// the previous carrier each time the ball changes hands.
pub open spec fn turnover_events(s: Seq<CarrierSample>) -> Seq<u32>
    decreases s.len(),
{
    if s.len() < 2 {
        Seq::empty()
    } else {
        let base = turnover_events(s.drop_last());
        let prev = s[s.len() - 2];
        if is_turnover(prev, s.last()) { base.push(prev.carrier_id) } else { base }
    }
}

/// The players charged with a lost duel, one entry per loss, in order: at a
/// turnover won close to the ball, the nearest opponent of the new carrier.
pub open spec fn duel_loss_events(s: Seq<CarrierSample>) -> Seq<u32>
    decreases s.len(),
{
    if s.len() < 2 {
        Seq::empty()
    } else {
        let base = duel_loss_events(s.drop_last());
        let prev = s[s.len() - 2];
        let cur = s.last();
        if is_turnover(prev, cur) && cur.close_to_ball && cur.nearest_opponent is Some {
            base.push(cur.nearest_opponent->0)
        } else {
            base
        }
    }
}

/// How the event lists grow with each carrier sample: with fewer than two
/// samples there is no event; appending a sample whose carrier is another
/// player of the other team charges the previous carrier one turnover, and,
/// when the new carrier is close to the ball and has a nearest opponent,
/// charges that opponent one lost duel (whatever the previous carrier's
/// distance to the ball); any other sample adds no event. So there are never
/// more lost duels than turnovers.
pub proof fn lemma_turnover_duel_events(s: Seq<CarrierSample>, cur: CarrierSample)
    ensures
        s.len() < 2 ==> turnover_events(s).len() == 0 && duel_loss_events(s).len() == 0,
        duel_loss_events(s).len() <= turnover_events(s).len(),
        s.len() > 0 ==> {
            let prev = s.last();
            let changed = prev.team != cur.team && prev.carrier_id != cur.carrier_id;
            &&& turnover_events(s.push(cur)) == if changed {
                turnover_events(s).push(prev.carrier_id)
            } else {
                turnover_events(s)
            }
            &&& duel_loss_events(s.push(cur)) == if changed && cur.close_to_ball && cur.nearest_opponent is Some {
                duel_loss_events(s).push(cur.nearest_opponent->0)
            } else {
                duel_loss_events(s)
            }
        },
    decreases s.len(),
{
    if s.len() > 0 {
        let t = s.push(cur);
        assert(t.drop_last() =~= s);
        assert(t[t.len() - 2] == s.last());
        assert(t.last() == cur);
        lemma_turnover_duel_events(s.drop_last(), s.last());
    }
}

/// Selects id `x`.
pub open spec fn is_id(x: u32) -> spec_fn(u32) -> bool {
    |y: u32| y == x
}

/// How often `x` occurs in `s`.
pub open spec fn count_id(s: Seq<u32>, x: u32) -> nat {
    s.filter(is_id(x)).len()
}

/// Every occurrence of `b` in `s` comes after an occurrence of `a`.
pub open spec fn appears_before(s: Seq<u32>, a: u32, b: u32) -> bool {
    forall|k: int| 0 <= k < s.len() && #[trigger] s[k] == b ==> exists|m: int| 0 <= m < k && s[m] == a
}

/// `t` tallies `s`: each id of `s` once, in order of first appearance, with
/// the number of times it occurs.
pub open spec fn is_tally_of(t: Seq<(u32, u32)>, s: Seq<u32>) -> bool {
    &&& forall|i: int| #![trigger t[i]] 0 <= i < t.len() ==> t[i].1 == count_id(s, t[i].0) && s.contains(t[i].0)
    &&& forall|i: int, j: int| 0 <= i < j < t.len() ==> t[i].0 != t[j].0
    &&& forall|x: u32| s.contains(x) ==> exists|i: int| 0 <= i < t.len() && #[trigger] t[i].0 == x
    &&& forall|i: int, j: int| 0 <= i < j < t.len() ==> #[trigger] appears_before(s, t[i].0, t[j].0)
}

proof fn lemma_appears_before_push(pre: Seq<u32>, x: u32, a: u32, b: u32)
    requires
        pre.contains(a),
        appears_before(pre, a, b),
    ensures
        appears_before(pre.push(x), a, b),
{
    let post = pre.push(x);
    let w = choose|w: int| 0 <= w < pre.len() && pre[w] == a;
    assert forall|k: int| 0 <= k < post.len() && #[trigger] post[k] == b implies exists|m: int| 0 <= m < k && post[m] == a by {
        if k < pre.len() {
            assert(pre[k] == b);
            let m = choose|m: int| 0 <= m < k && pre[m] == a;
            assert(post[m] == a);
        } else {
            assert(post[w] == a);
        }
    }
}

/// The sum of the counts of a tally.
pub open spec fn tally_total(t: Seq<(u32, u32)>) -> int
    decreases t.len(),
{
    if t.len() == 0 { 0 } else { tally_total(t.drop_last()) + t.last().1 }
}

proof fn lemma_tally_total_update(t: Seq<(u32, u32)>, j: int, v: (u32, u32))
    requires
        0 <= j < t.len(),
    ensures
        tally_total(t.update(j, v)) == tally_total(t) - t[j].1 + v.1,
    decreases t.len(),
{
    if j == t.len() - 1 {
        assert(t.update(j, v).drop_last() =~= t.drop_last());
    } else {
        assert(t.update(j, v).drop_last() =~= t.drop_last().update(j, v));
        lemma_tally_total_update(t.drop_last(), j, v);
    }
}

proof fn lemma_tally_order_step(old_out: Seq<(u32, u32)>, out: Seq<(u32, u32)>, pre: Seq<u32>, x: u32)
    requires
        is_tally_of(old_out, pre),
        out.len() == old_out.len() || out.len() == old_out.len() + 1,
        forall|k: int| 0 <= k < old_out.len() ==> #[trigger] out[k].0 == old_out[k].0,
        out.len() == old_out.len() + 1 ==> out[old_out.len() as int].0 == x && !pre.contains(x),
    ensures
        forall|a: int, b: int| 0 <= a < b < out.len() ==> #[trigger] appears_before(pre.push(x), out[a].0, out[b].0),
{
    assert forall|a: int, b: int| 0 <= a < b < out.len() implies #[trigger] appears_before(pre.push(x), out[a].0, out[b].0) by {
        assert(out[a].0 == old_out[a].0);
        assert(old_out[a].1 == count_id(pre, old_out[a].0) && pre.contains(old_out[a].0));
        if b < old_out.len() {
            assert(out[b].0 == old_out[b].0);
            assert(appears_before(pre, old_out[a].0, old_out[b].0));
        } else {
            assert forall|k: int| 0 <= k < pre.len() && #[trigger] pre[k] == x implies exists|m: int| 0 <= m < k && pre[m] == old_out[a].0 by {
                assert(pre.contains(x));
            }
            assert(appears_before(pre, old_out[a].0, x));
        }
        lemma_appears_before_push(pre, x, out[a].0, out[b].0);
    }
}

/// Tallies ids in order of first appearance; the counts add up to the number
/// of ids.
pub fn tally_ids(ids: &Vec<u32>) -> (r: Vec<(u32, u32)>)
    requires
        ids@.len() <= u32::MAX,
    ensures
        is_tally_of(r@, ids@),
        tally_total(r@) == ids@.len(),
{
    let mut out: Vec<(u32, u32)> = Vec::new();
    let mut i: usize = 0;
    while i < ids.len()
        invariant
            i <= ids@.len(),
            ids@.len() <= u32::MAX,
            is_tally_of(out@, ids@.take(i as int)),
            tally_total(out@) == i,
        decreases ids.len() - i,
    {
        let x = ids[i];
        let ghost pre = ids@.take(i as int);
        let ghost post = ids@.take(i + 1);
        proof {
            assert(post =~= pre.push(x));
        }
        let mut j: usize = 0;
        let mut found = false;
        while j < out.len()
            invariant_except_break
                !found,
            invariant
                j <= out@.len(),
                forall|k: int| 0 <= k < j ==> out@[k].0 != x,
            ensures
                found ==> j < out@.len() && out@[j as int].0 == x,
                !found ==> forall|k: int| 0 <= k < out@.len() ==> out@[k].0 != x,
            decreases out.len() - j,
        {
            if out[j].0 == x {
                found = true;
                break;
            }
            j = j + 1;
        }
        let ghost old_out = out@;
        proof {
            assert(is_tally_of(old_out, pre));
            assert forall|y: u32| #[trigger] count_id(post, y) == count_id(pre, y) + if y == x { 1nat } else { 0nat } by {
                pre.lemma_filter_push(x, is_id(y));
            }
            pre.lemma_filter_len(is_id(x));
        }
        if found {
            proof {
                assert(count_id(pre, x) <= i);
            }
            let (id, c) = out[j];
            out.set(j, (id, c + 1));
            proof {
                lemma_tally_total_update(old_out, j as int, (id, (c + 1) as u32));
                assert forall|y: u32| post.contains(y) implies exists|k: int| 0 <= k < out@.len() && #[trigger] out@[k].0 == y by {
                    if y == x {
                        assert(out@[j as int].0 == y);
                    } else {
                        assert(pre.contains(y)) by {
                            let w = choose|w: int| 0 <= w < post.len() && post[w] == y;
                            assert(pre[w] == y);
                        }
                        let k = choose|k: int| 0 <= k < old_out.len() && #[trigger] old_out[k].0 == y;
                        assert(out@[k].0 == y);
                    }
                }
                assert forall|k: int| 0 <= k < out@.len() implies #[trigger] out@[k].1 == count_id(post, out@[k].0) && post.contains(out@[k].0) by {
                    assert(old_out[k].1 == count_id(pre, old_out[k].0));
                    assert(pre.contains(old_out[k].0));
                    let w = choose|w: int| 0 <= w < pre.len() && pre[w] == old_out[k].0;
                    assert(post[w] == pre[w]);
                }
                lemma_tally_order_step(old_out, out@, pre, x);
            }
        } else {
            proof {
                assert(!pre.contains(x));
                assert(count_id(pre, x) == 0) by {
                    if count_id(pre, x) > 0 {
                        let f = pre.filter(is_id(x));
                        assert(is_id(x)(f[0]));
                        pre.lemma_filter_contains_rev(is_id(x), f[0]);
                    }
                }
            }
            out.push((x, 1));
            proof {
                assert(out@.drop_last() =~= old_out);
                assert(post[i as int] == x);
                assert forall|y: u32| post.contains(y) implies exists|k: int| 0 <= k < out@.len() && #[trigger] out@[k].0 == y by {
                    if y == x {
                        assert(out@[old_out.len() as int].0 == y);
                    } else {
                        assert(pre.contains(y)) by {
                            let w = choose|w: int| 0 <= w < post.len() && post[w] == y;
                            assert(pre[w] == y);
                        }
                        let k = choose|k: int| 0 <= k < old_out.len() && #[trigger] old_out[k].0 == y;
                        assert(out@[k].0 == y);
                    }
                }
                assert forall|k: int| 0 <= k < out@.len() implies #[trigger] out@[k].1 == count_id(post, out@[k].0) && post.contains(out@[k].0) by {
                    if k < old_out.len() {
                        assert(out@[k] == old_out[k]);
                        assert(old_out[k].1 == count_id(pre, old_out[k].0) && pre.contains(old_out[k].0));
                        let w = choose|w: int| 0 <= w < pre.len() && pre[w] == old_out[k].0;
                        assert(post[w] == pre[w]);
                    }
                }
                lemma_tally_order_step(old_out, out@, pre, x);
            }
        }
        i = i + 1;
    }
    assert(ids@.take(ids@.len() as int) =~= ids@);
    out
}

/// The players charged with each turnover and each lost duel over a run of
/// carrier samples (one entry per event, in order).
pub fn turnover_and_duel_events(samples: &Vec<CarrierSample>) -> (r: (Vec<u32>, Vec<u32>))
    ensures
        r.0@ == turnover_events(samples@),
        r.1@ == duel_loss_events(samples@),
{
    let mut turnovers: Vec<u32> = Vec::new();
    let mut duels: Vec<u32> = Vec::new();
    if samples.len() < 2 {
        return (turnovers, duels);
    }
    let mut i: usize = 1;
    assert(samples@.take(1).len() < 2);
    while i < samples.len()
        invariant
            1 <= i <= samples@.len(),
            turnovers@ == turnover_events(samples@.take(i as int)),
            duels@ == duel_loss_events(samples@.take(i as int)),
        decreases samples.len() - i,
    {
        let prev = samples[i - 1];
        let cur = samples[i];
        proof {
            let t = samples@.take(i + 1);
            assert(t.drop_last() =~= samples@.take(i as int));
            assert(t[t.len() - 2] == prev);
            assert(t.last() == cur);
        }
        if prev.team != cur.team && prev.carrier_id != cur.carrier_id {
            turnovers.push(prev.carrier_id);
            if cur.close_to_ball {
                match cur.nearest_opponent {
                    Some(o) => { duels.push(o); },
                    None => {},
                }
            }
        }
        i = i + 1;
    }
    assert(samples@.take(samples@.len() as int) =~= samples@);
    (turnovers, duels)
}

/// `a` sorts before or equal to `b` as `String` orders text: character by
/// character by Unicode scalar value, a prefix first.
pub open spec fn lex_le(a: Seq<char>, b: Seq<char>) -> bool
    decreases a.len(),
{
    if a.len() == 0 {
        true
    } else if b.len() == 0 {
        false
    } else if a[0] != b[0] {
        (a[0] as int) < (b[0] as int)
    } else {
        lex_le(a.drop_first(), b.drop_first())
    }
}

proof fn lemma_lex_total(a: Seq<char>, b: Seq<char>)
    ensures
        lex_le(a, b) || lex_le(b, a),
    decreases a.len(),
{
    if a.len() > 0 && b.len() > 0 && a[0] == b[0] {
        lemma_lex_total(a.drop_first(), b.drop_first());
    }
}

proof fn lemma_lex_trans(a: Seq<char>, b: Seq<char>, c: Seq<char>)
    requires
        lex_le(a, b),
        lex_le(b, c),
    ensures
        lex_le(a, c),
    decreases a.len(),
{
    if a.len() > 0 && b.len() > 0 && c.len() > 0 && a[0] == b[0] && b[0] == c[0] {
        lemma_lex_trans(a.drop_first(), b.drop_first(), c.drop_first());
    }
}

proof fn lemma_lex_antisym(a: Seq<char>, b: Seq<char>)
    requires
        lex_le(a, b),
        lex_le(b, a),
    ensures
        a == b,
    decreases a.len(),
{
    if a.len() == 0 {
        assert(a =~= b);
    } else {
        assert(a[0] == b[0]);
        lemma_lex_antisym(a.drop_first(), b.drop_first());
        assert forall|i: int| 0 <= i < a.len() implies a[i] == b[i] by {
            if i > 0 {
                assert(a[i] == a.drop_first()[i - 1]);
                assert(b[i] == b.drop_first()[i - 1]);
            }
        }
        assert(a =~= b);
    }
}

/// Texts in `String` order.
pub open spec fn sorted_lex(s: Seq<Seq<char>>) -> bool {
    forall|i: int, j: int| 0 <= i < j < s.len() ==> lex_le(s[i], s[j])
}

/// Two sequences of texts that hold the same texts, each in `String` order,
/// are the same sequence.
pub proof fn lemma_sorted_texts_unique(p: Seq<Seq<char>>, q: Seq<Seq<char>>)
    requires
        sorted_lex(p),
        sorted_lex(q),
        p.to_multiset() == q.to_multiset(),
    ensures
        p == q,
    decreases p.len(),
{
    broadcast use vstd::seq_lib::group_to_multiset_ensures;
    vstd::seq_lib::to_multiset_len(p);
    vstd::seq_lib::to_multiset_len(q);
    assert(p.len() == q.len());
    if p.len() == 0 {
        assert(p =~= q);
    } else {
        assert(p.to_multiset().count(p[0]) > 0);
        assert(q.contains(p[0]));
        let j = choose|j: int| 0 <= j < q.len() && q[j] == p[0];
        assert(q.to_multiset().count(q[0]) > 0);
        assert(p.contains(q[0]));
        let k = choose|k: int| 0 <= k < p.len() && p[k] == q[0];
        if j != 0 && k != 0 {
            assert(lex_le(q[0], q[j]));
            assert(lex_le(p[0], p[k]));
            lemma_lex_antisym(p[0], q[0]);
        }
        assert(p[0] == q[0]);
        assert(p.remove(0) =~= p.drop_first());
        assert(q.remove(0) =~= q.drop_first());
        assert(p.remove(0).to_multiset() == p.to_multiset().remove(p[0]));
        assert(q.remove(0).to_multiset() == q.to_multiset().remove(q[0]));
        lemma_sorted_texts_unique(p.drop_first(), q.drop_first());
        assert forall|i: int| 0 <= i < p.len() implies p[i] == q[i] by {
            if i > 0 {
                assert(p[i] == p.drop_first()[i - 1]);
                assert(q[i] == q.drop_first()[i - 1]);
            }
        }
        assert(p =~= q);
    }
}

/// The texts of `s` joined with `sep` between neighbours.
pub open spec fn join_with(s: Seq<Seq<char>>, sep: Seq<char>) -> Seq<char>
    decreases s.len(),
{
    if s.len() == 0 {
        Seq::empty()
    } else if s.len() == 1 {
        s[0]
    } else {
        join_with(s.drop_last(), sep) + sep + s.last()
    }
}

/// Display text of a box zone.
pub open spec fn box_zone_label(z: BoxZone) -> Seq<char> {
    match z {
        BoxZone::NearPost => "Near post"@,
        BoxZone::SixYard => "6-yard"@,
        BoxZone::PenaltySpot => "Penalty spot"@,
        BoxZone::FarPost => "Far post"@,
        BoxZone::EdgeOfBox => "Edge of box"@,
    }
}

/// Selects zone `z`.
pub open spec fn is_box_zone(z: BoxZone) -> spec_fn(BoxZone) -> bool {
    |y: BoxZone| y == z
}

/// How often zone `z` occurs in `s`.
pub open spec fn count_box_zone(s: Seq<BoxZone>, z: BoxZone) -> nat {
    s.filter(is_box_zone(z)).len()
}

/// The summary entry of a zone seen `n` times: its label, preceded by the
/// count and a multiplication sign when it was seen more than once.
pub open spec fn zone_part(z: BoxZone, n: nat) -> Seq<char> {
    if n > 1 { decimal(n) + seq!['\u{d7}'] + box_zone_label(z) } else { box_zone_label(z) }
}

/// The entry of zone `z` if it occurs in `s`.
pub open spec fn part_if_seen(s: Seq<BoxZone>, z: BoxZone) -> Seq<Seq<char>> {
    if count_box_zone(s, z) > 0 { seq![zone_part(z, count_box_zone(s, z))] } else { Seq::empty() }
}

/// The entries of every zone that occurs in `s`, in declaration order.
pub open spec fn zone_parts(s: Seq<BoxZone>) -> Seq<Seq<char>> {
    part_if_seen(s, BoxZone::NearPost) + part_if_seen(s, BoxZone::SixYard) + part_if_seen(s, BoxZone::PenaltySpot)
        + part_if_seen(s, BoxZone::FarPost) + part_if_seen(s, BoxZone::EdgeOfBox)
}

fn lex_le_exec(a: &Vec<char>, b: &Vec<char>) -> (r: bool)
    ensures
        r == lex_le(a@, b@),
{
    let mut i: usize = 0;
    assert(a@.skip(0) =~= a@);
    assert(b@.skip(0) =~= b@);
    while i < a.len() && i < b.len() && a[i] == b[i]
        invariant
            i <= a@.len(),
            i <= b@.len(),
            lex_le(a@, b@) == lex_le(a@.skip(i as int), b@.skip(i as int)),
        decreases a.len() - i,
    {
        assert(a@.skip(i as int).drop_first() =~= a@.skip(i + 1));
        assert(b@.skip(i as int).drop_first() =~= b@.skip(i + 1));
        assert(a@.skip(i as int)[0] == a@[i as int]);
        assert(b@.skip(i as int)[0] == b@[i as int]);
        i = i + 1;
    }
    let sa = Ghost(a@.skip(i as int));
    let sb = Ghost(b@.skip(i as int));
    if i == a.len() {
        assert(sa@.len() == 0);
        assert(lex_le(sa@, sb@));
        true
    } else if i == b.len() {
        assert(sa@.len() > 0 && sb@.len() == 0);
        assert(!lex_le(sa@, sb@));
        false
    } else {
        assert(sa@[0] == a@[i as int]);
        assert(sb@[0] == b@[i as int]);
        assert(sa@[0] != sb@[0]);
        let r = a[i] < b[i];
        assert(r == ((sa@[0] as int) < (sb@[0] as int)));
        r
    }
}

/// The texts held by a vector of character vectors.
pub open spec fn texts(v: Seq<Vec<char>>) -> Seq<Seq<char>> {
    v.map_values(|x: Vec<char>| x@)
}

/// Moves `parts` into `String` order.
fn sort_texts(parts: Vec<Vec<char>>) -> (out: Vec<Vec<char>>)
    ensures
        sorted_lex(texts(out@)),
        texts(out@).to_multiset() == texts(parts@).to_multiset(),
{
    broadcast use vstd::seq_lib::group_to_multiset_ensures;
    let ghost orig = texts(parts@);
    let mut pending = parts;
    let mut out: Vec<Vec<char>> = Vec::new();
    let mut taken: usize = 0;
    assert(orig.len() == pending.len());
    while pending.len() > 0
        invariant
            orig.len() <= usize::MAX,
            taken + texts(pending@).len() == orig.len(),
            texts(pending@) == orig.skip(taken as int),
            sorted_lex(texts(out@)),
            texts(out@).to_multiset() == orig.take(taken as int).to_multiset(),
        decreases pending.len(),
    {
        let ghost before_pending = texts(pending@);
        let x = pending.remove(0);
        assert(x@ == before_pending[0]);
        assert(texts(pending@) =~= before_pending.drop_first());
        assert(x@ == orig[taken as int]);
        let mut k: usize = out.len();
        while k > 0 && !lex_le_exec(&out[k - 1], &x)
            invariant
                0 <= k <= out.len(),
                sorted_lex(texts(out@)),
                forall|j: int| k <= j < out.len() ==> !lex_le(texts(out@)[j], x@),
            decreases k,
        {
            k = k - 1;
        }
        let ghost old_out = texts(out@);
        proof {
            assert(orig.take(taken + 1) =~= orig.take(taken as int).push(x@));
            vstd::seq_lib::to_multiset_insert(old_out, k as int, x@);
            vstd::seq_lib::to_multiset_build(orig.take(taken as int), x@);
        }
        out.insert(k, x);
        assert(texts(out@) =~= old_out.insert(k as int, x@));
        proof {
            assert forall|a: int, b: int| 0 <= a < b < texts(out@).len() implies lex_le(texts(out@)[a], texts(out@)[b]) by {
                let o = texts(out@);
                if b < k {
                    assert(o[a] == old_out[a] && o[b] == old_out[b]);
                } else if b == k {
                    assert(o[a] == old_out[a]);
                    assert(lex_le(old_out[k - 1], x@));
                    if a < k - 1 {
                        lemma_lex_trans(old_out[a], old_out[k - 1], x@);
                    }
                } else if a < k {
                    assert(o[a] == old_out[a] && o[b] == old_out[b - 1]);
                } else if a == k {
                    assert(o[b] == old_out[b - 1]);
                    lemma_lex_total(old_out[b - 1], x@);
                } else {
                    assert(o[a] == old_out[a - 1] && o[b] == old_out[b - 1]);
                }
            }
        }
        taken = taken + 1;
    }
    assert(orig.take(orig.len() as int) =~= orig);
    out
}

/// The entry text of zone `z` seen `n` times, as characters.
fn zone_part_chars(z: BoxZone, n: usize) -> (r: Vec<char>)
    ensures
        r@ == zone_part(z, n as nat),
{
    let mut t = String::new();
    if n > 1 {
        push_decimal(&mut t, n as u64);
        push_char(&mut t, '\u{d7}');
    }
    push_str(&mut t, z.label());
    assert(t@ =~= zone_part(z, n as nat));
    chars_of(t.as_str())
}

/// Adds the entry of zone `z`, seen `n` times, when it was seen.
fn push_part_if_seen(parts: &mut Vec<Vec<char>>, z: BoxZone, n: usize)
    ensures
        texts(final(parts)@) == texts(old(parts)@) + (if n > 0 { seq![zone_part(z, n as nat)] } else { Seq::empty() }),
{
    if n > 0 {
        let c = zone_part_chars(z, n);
        parts.push(c);
        assert(texts(parts@) =~= texts(old(parts)@) + seq![zone_part(z, n as nat)]);
    } else {
        assert(texts(parts@) =~= texts(old(parts)@) + Seq::<Seq<char>>::empty());
    }
}

/// `r` is the summary of the box zones `zones`: a dash when there are none;
/// otherwise the entries of the zones seen, in `String` order, joined with ", ".
pub open spec fn is_zones_summary(zones: Seq<BoxZone>, r: Seq<char>) -> bool {
    if zones.len() == 0 {
        r == "\u{2014}"@
    } else {
        exists|ps: Seq<Seq<char>>| {
            &&& ps.to_multiset() == zone_parts(zones).to_multiset()
            &&& sorted_lex(ps)
            &&& #[trigger] join_with(ps, ", "@) == r
        }
    }
}

proof fn lemma_count_box_zone_multiset(s: Seq<BoxZone>, z: BoxZone)
    ensures
        count_box_zone(s, z) == s.to_multiset().count(z),
    decreases s.len(),
{
    broadcast use vstd::seq_lib::group_to_multiset_ensures;
    if s.len() == 0 {
        assert(s.filter(is_box_zone(z)) =~= Seq::<BoxZone>::empty()) by { reveal(Seq::filter); }
        vstd::seq_lib::to_multiset_len(s);
    } else {
        let t = s.drop_last();
        assert(s =~= t.push(s.last()));
        t.lemma_filter_push(s.last(), is_box_zone(z));
        vstd::seq_lib::to_multiset_build(t, s.last());
        lemma_count_box_zone_multiset(t, z);
    }
}

/// The summary of box zones does not depend on the order in which the zones
/// were recorded, and is fixed by the zones: two summaries of the same zones,
/// in any order, are the same text.
pub proof fn lemma_zones_summary_order_free(a: Seq<BoxZone>, b: Seq<BoxZone>, ra: Seq<char>, rb: Seq<char>)
    requires
        a.to_multiset() == b.to_multiset(),
        is_zones_summary(a, ra),
        is_zones_summary(b, rb),
    ensures
        ra == rb,
{
    vstd::seq_lib::to_multiset_len(a);
    vstd::seq_lib::to_multiset_len(b);
    if a.len() > 0 {
        lemma_count_box_zone_multiset(a, BoxZone::NearPost);
        lemma_count_box_zone_multiset(b, BoxZone::NearPost);
        lemma_count_box_zone_multiset(a, BoxZone::SixYard);
        lemma_count_box_zone_multiset(b, BoxZone::SixYard);
        lemma_count_box_zone_multiset(a, BoxZone::PenaltySpot);
        lemma_count_box_zone_multiset(b, BoxZone::PenaltySpot);
        lemma_count_box_zone_multiset(a, BoxZone::FarPost);
        lemma_count_box_zone_multiset(b, BoxZone::FarPost);
        lemma_count_box_zone_multiset(a, BoxZone::EdgeOfBox);
        lemma_count_box_zone_multiset(b, BoxZone::EdgeOfBox);
        assert(zone_parts(a) == zone_parts(b));
        let pa = choose|ps: Seq<Seq<char>>| {
            &&& ps.to_multiset() == zone_parts(a).to_multiset()
            &&& sorted_lex(ps)
            &&& #[trigger] join_with(ps, ", "@) == ra
        };
        let pb = choose|ps: Seq<Seq<char>>| {
            &&& ps.to_multiset() == zone_parts(b).to_multiset()
            &&& sorted_lex(ps)
            &&& #[trigger] join_with(ps, ", "@) == rb
        };
        lemma_sorted_texts_unique(pa, pb);
    }
}

/// Summary of the box zones attackers occupied at a cross: one entry per zone
/// seen (its label, preceded by the count and "×" when seen more than once),
/// in `String` order, joined with ", "; a dash when no zone was recorded.
pub fn zones_summary(zones: &Vec<BoxZone>) -> (r: String)
    ensures
        is_zones_summary(zones@, r@),
{
    if zones.len() == 0 {
        return String::from_str("\u{2014}");
    }
    let mut c: [usize; 5] = [0, 0, 0, 0, 0];
    let mut i: usize = 0;
    proof {
        assert(zones@.take(0) =~= Seq::<BoxZone>::empty());
        assert forall|z: BoxZone| #[trigger] count_box_zone(zones@.take(0), z) == 0 by {
            assert(zones@.take(0).filter(is_box_zone(z)) =~= Seq::<BoxZone>::empty()) by { reveal(Seq::filter); }
        }
    }
    while i < zones.len()
        invariant
            i <= zones@.len(),
            c[0] == count_box_zone(zones@.take(i as int), BoxZone::NearPost),
            c[1] == count_box_zone(zones@.take(i as int), BoxZone::SixYard),
            c[2] == count_box_zone(zones@.take(i as int), BoxZone::PenaltySpot),
            c[3] == count_box_zone(zones@.take(i as int), BoxZone::FarPost),
            c[4] == count_box_zone(zones@.take(i as int), BoxZone::EdgeOfBox),
            c[0] + c[1] + c[2] + c[3] + c[4] == i,
        decreases zones.len() - i,
    {
        let z = zones[i];
        proof {
            assert(zones@.take(i + 1) =~= zones@.take(i as int).push(z));
            zones@.take(i as int).lemma_filter_push(z, is_box_zone(BoxZone::NearPost));
            zones@.take(i as int).lemma_filter_push(z, is_box_zone(BoxZone::SixYard));
            zones@.take(i as int).lemma_filter_push(z, is_box_zone(BoxZone::PenaltySpot));
            zones@.take(i as int).lemma_filter_push(z, is_box_zone(BoxZone::FarPost));
            zones@.take(i as int).lemma_filter_push(z, is_box_zone(BoxZone::EdgeOfBox));
        }
        let k: usize = match z {
            BoxZone::NearPost => 0,
            BoxZone::SixYard => 1,
            BoxZone::PenaltySpot => 2,
            BoxZone::FarPost => 3,
            BoxZone::EdgeOfBox => 4,
        };
        c[k] = c[k] + 1;
        i = i + 1;
    }
    assert(zones@.take(zones@.len() as int) =~= zones@);
    let mut parts: Vec<Vec<char>> = Vec::new();
    assert(texts(parts@) =~= Seq::<Seq<char>>::empty());
    push_part_if_seen(&mut parts, BoxZone::NearPost, c[0]);
    push_part_if_seen(&mut parts, BoxZone::SixYard, c[1]);
    push_part_if_seen(&mut parts, BoxZone::PenaltySpot, c[2]);
    push_part_if_seen(&mut parts, BoxZone::FarPost, c[3]);
    push_part_if_seen(&mut parts, BoxZone::EdgeOfBox, c[4]);
    assert(texts(parts@) =~= zone_parts(zones@));
    let sorted = sort_texts(parts);
    let ghost ps = texts(sorted@);
    let mut out = String::new();
    let mut j: usize = 0;
    assert(ps.take(0) =~= Seq::<Seq<char>>::empty());
    while j < sorted.len()
        invariant
            j <= sorted@.len(),
            ps == texts(sorted@),
            out@ == join_with(ps.take(j as int), ", "@),
        decreases sorted.len() - j,
    {
        let ghost before = out@;
        if j > 0 {
            push_str(&mut out, ", ");
        }
        let piece = string_of_chars(sorted[j].as_slice());
        push_str(&mut out, piece.as_str());
        proof {
            let t = ps.take(j + 1);
            assert(t.drop_last() =~= ps.take(j as int));
            assert(t.last() == sorted@[j as int]@);
            if j == 0 {
                assert(out@ =~= t[0]);
            } else {
                assert(out@ =~= join_with(t.drop_last(), ", "@) + ", "@ + t.last());
            }
        }
        j = j + 1;
    }
    assert(ps.take(sorted@.len() as int) =~= ps);
    out
}

proof fn lemma_join_push(ps: Seq<Seq<char>>, x: Seq<char>, sep: Seq<char>)
    ensures
        join_with(ps.push(x), sep) == if ps.len() == 0 { x } else { join_with(ps, sep) + sep + x },
{
    assert(ps.push(x).drop_last() =~= ps);
    assert(ps.push(x).last() == x);
    if ps.len() == 0 {
        assert(ps.push(x)[0] == x);
    }
}

/// The weaknesses a player's factors point to, in this order: low activity,
/// slowness, giving the ball away, losing duels.
pub open spec fn weakness_parts(low_activity: bool, slow: bool, gives_ball_away: bool, loses_duels: bool) -> Seq<Seq<char>> {
    (if low_activity { seq!["low activity"@] } else { Seq::empty() })
        + (if slow { seq!["slow"@] } else { Seq::empty() })
        + (if gives_ball_away { seq!["gives ball away"@] } else { Seq::empty() })
        + (if loses_duels { seq!["loses 1v1"@] } else { Seq::empty() })
}

/// The note shown for a weak player: the stored notes when there are any;
/// otherwise the weaknesses joined with ", ", or a dash when there is none.
pub open spec fn weakness_note(notes: Seq<char>, low_activity: bool, slow: bool, gives_ball_away: bool, loses_duels: bool) -> Seq<char> {
    let parts = weakness_parts(low_activity, slow, gives_ball_away, loses_duels);
    if notes.len() > 0 {
        notes
    } else if parts.len() == 0 {
        "\u{2014}"@
    } else {
        join_with(parts, ", "@)
    }
}

/// Appends `part` to a comma-separated list held in `out`.
fn append_part(out: &mut String, first: bool, part: &str)
    ensures
        final(out)@ == if first { old(out)@ + part@ } else { old(out)@ + ", "@ + part@ },
{
    if !first {
        push_str(out, ", ");
    }
    push_str(out, part);
}

/// The note shown for a weak player, from its stored notes and which of its
/// weakness factors are high (activity, speed, turnovers, duel losses).
pub fn notes_summary(notes: &str, low_activity: bool, slow: bool, gives_ball_away: bool, loses_duels: bool) -> (r: String)
    ensures
        r@ == weakness_note(notes@, low_activity, slow, gives_ball_away, loses_duels),
{
    if notes.unicode_len() > 0 {
        return string_of(notes);
    }
    proof {
        reveal_strlit("low activity");
        reveal_strlit("slow");
        reveal_strlit("gives ball away");
        reveal_strlit("loses 1v1");
    }
    let mut out = String::new();
    let mut any = false;
    let ghost mut ps: Seq<Seq<char>> = Seq::empty();
    assert(out@ =~= join_with(ps, ", "@));
    if low_activity {
        append_part(&mut out, !any, "low activity");
        proof {
            lemma_join_push(ps, "low activity"@, ", "@);
            ps = ps.push("low activity"@);
        }
        any = true;
        assert(out@ =~= join_with(ps, ", "@));
    }
    if slow {
        append_part(&mut out, !any, "slow");
        proof {
            lemma_join_push(ps, "slow"@, ", "@);
            ps = ps.push("slow"@);
        }
        any = true;
        assert(out@ =~= join_with(ps, ", "@));
    }
    if gives_ball_away {
        append_part(&mut out, !any, "gives ball away");
        proof {
            lemma_join_push(ps, "gives ball away"@, ", "@);
            ps = ps.push("gives ball away"@);
        }
        any = true;
        assert(out@ =~= join_with(ps, ", "@));
    }
    if loses_duels {
        append_part(&mut out, !any, "loses 1v1");
        proof {
            lemma_join_push(ps, "loses 1v1"@, ", "@);
            ps = ps.push("loses 1v1"@);
        }
        any = true;
        assert(out@ =~= join_with(ps, ", "@));
    }
    assert(ps =~= weakness_parts(low_activity, slow, gives_ball_away, loses_duels));
    assert(any == (ps.len() > 0));
    if !any {
        return string_of("\u{2014}");
    }
    out
}

} // verus!
