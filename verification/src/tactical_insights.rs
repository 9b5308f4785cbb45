use vstd::prelude::*;
use crate::text::{decimal, push_decimal, push_str};
use crate::metrics::{PhaseLabel, phase_label};
use crate::match_analysis::{tally_ids, is_tally_of, count_id};
use crate::pitch_mapping::{PitchArea, area_label, area_index};
use crate::metrics::{area_counts, dominant_area, count_area};

verus! {

broadcast use vstd::seq_lib::group_filter_ensures;

/// What an insight is about.
#[derive(Debug, Clone, Copy, PartialEq, Eq, Structural)]
pub enum InsightCategory {
    Pressing,
    Possession,
    Movement,
    Formation,
    General,
}

impl InsightCategory {
    /// Display text of the category.
    pub fn label(&self) -> (r: &'static str)
        ensures
            *self == InsightCategory::Pressing ==> r@ == "Pressing"@,
            *self == InsightCategory::Possession ==> r@ == "Possession"@,
            *self == InsightCategory::Movement ==> r@ == "Movement"@,
            *self == InsightCategory::Formation ==> r@ == "Formation"@,
            *self == InsightCategory::General ==> r@ == "General"@,
    {
        match self {
            InsightCategory::Pressing => "Pressing",
            InsightCategory::Possession => "Possession",
            InsightCategory::Movement => "Movement",
            InsightCategory::Formation => "Formation",
            InsightCategory::General => "General",
        }
    }
}

/// How prominently an insight is shown.
#[derive(Debug, Clone, Copy, PartialEq, Eq, Structural)]
pub enum Importance {
    High,
    Medium,
    Low,
}

/// Display rank of an importance: high first.
pub open spec fn importance_rank(i: Importance) -> int {
    match i {
        Importance::High => 0,
        Importance::Medium => 1,
        Importance::Low => 2,
    }
}

impl Importance {
    /// Display rank: high first.
    pub fn rank(&self) -> (r: u8)
        ensures
            r == importance_rank(*self),
    {
        match self {
            Importance::High => 0,
            Importance::Medium => 1,
            Importance::Low => 2,
        }
    }
}

/// A coach-facing finding.
#[derive(Debug)]
pub struct TacticalInsight {
    pub category: InsightCategory,
    pub title: String,
    pub description: String,
    pub importance: Importance,
}

impl TacticalInsight {
    /// An insight from its parts.
    pub fn new(category: InsightCategory, title: String, description: String, importance: Importance) -> (r: TacticalInsight)
        ensures
            r == (TacticalInsight { category, title, description, importance }),
    {
        TacticalInsight { category, title, description, importance }
    }

    /// A copy of the insight.
    pub fn duplicate(&self) -> (r: TacticalInsight)
        ensures
            r == *self,
    {
        TacticalInsight {
            category: self.category,
            title: self.title.clone(),
            description: self.description.clone(),
            importance: self.importance,
        }
    }
}

/// Selects the insights of display rank `k`.
pub open spec fn has_rank(k: int) -> spec_fn(TacticalInsight) -> bool {
    |x: TacticalInsight| importance_rank(x.importance) == k
}

/// Insights in display order: high before medium before low.
pub open spec fn sorted_by_importance(s: Seq<TacticalInsight>) -> bool {
    forall|i: int, j: int| 0 <= i < j < s.len() ==> importance_rank(s[i].importance) <= importance_rank(s[j].importance)
}

/// `out` is `inp` stably sorted by importance.
pub open spec fn is_importance_sort(out: Seq<TacticalInsight>, inp: Seq<TacticalInsight>) -> bool {
    &&& sorted_by_importance(out)
    &&& forall|k: int| #[trigger] out.filter(has_rank(k)) == inp.filter(has_rank(k))
}

proof fn lemma_rank_filter_none(s: Seq<TacticalInsight>, k: int)
    requires
        forall|i: int| 0 <= i < s.len() ==> importance_rank(s[i].importance) != k,
    ensures
        s.filter(has_rank(k)) == Seq::<TacticalInsight>::empty(),
{
    assert(s.all(|x: TacticalInsight| !has_rank(k)(x)));
    s.lemma_all_neg_filter_empty(has_rank(k));
}

proof fn lemma_rank_insert(out: Seq<TacticalInsight>, p: int, x: TacticalInsight, k: int)
    requires
        0 <= p <= out.len(),
        forall|i: int| p <= i < out.len() ==> importance_rank(out[i].importance) > importance_rank(x.importance),
    ensures
        out.insert(p, x).filter(has_rank(k)) == if k == importance_rank(x.importance) {
            out.filter(has_rank(k)).push(x)
        } else {
            out.filter(has_rank(k))
        },
{
    let a = out.take(p);
    let b = out.skip(p);
    assert(out =~= a + b);
    assert(out.insert(p, x) =~= a.push(x) + b);
    Seq::filter_distributes_over_add(a, b, has_rank(k));
    Seq::filter_distributes_over_add(a.push(x), b, has_rank(k));
    a.lemma_filter_push(x, has_rank(k));
    if k == importance_rank(x.importance) {
        lemma_rank_filter_none(b, k);
        assert(out.filter(has_rank(k)) =~= a.filter(has_rank(k)));
        assert(out.insert(p, x).filter(has_rank(k)) =~= a.filter(has_rank(k)).push(x));
    } else {
        assert(out.insert(p, x).filter(has_rank(k)) =~= a.filter(has_rank(k)) + b.filter(has_rank(k)));
    }
}

/// Orders insights for display: high, then medium, then low importance,
/// keeping the generation order within each level.
pub fn sort_by_importance(insights: &Vec<TacticalInsight>) -> (out: Vec<TacticalInsight>)
    ensures
        is_importance_sort(out@, insights@),
{
    let mut out: Vec<TacticalInsight> = Vec::new();
    let mut i: usize = 0;
    while i < insights.len()
        invariant
            0 <= i <= insights@.len(),
            sorted_by_importance(out@),
            forall|k: int| #[trigger] out@.filter(has_rank(k)) == insights@.take(i as int).filter(has_rank(k)),
        decreases insights.len() - i,
    {
        let x = insights[i].duplicate();
        let xr = x.importance.rank();
        let mut p: usize = out.len();
        while p > 0 && out[p - 1].importance.rank() > xr
            invariant
                0 <= p <= out@.len(),
                xr == importance_rank(x.importance),
                sorted_by_importance(out@),
                forall|j: int| p <= j < out@.len() ==> importance_rank(out@[j].importance) > importance_rank(x.importance),
            decreases p,
        {
            p = p - 1;
        }
        let ghost old_out = out@;
        proof {
            assert forall|k: int| #[trigger] old_out.insert(p as int, x).filter(has_rank(k))
                == insights@.take(i + 1).filter(has_rank(k)) by {
                lemma_rank_insert(old_out, p as int, x, k);
                assert(insights@.take(i + 1) =~= insights@.take(i as int).push(x));
                insights@.take(i as int).lemma_filter_push(x, has_rank(k));
            }
        }
        out.insert(p, x);
        proof {
            assert forall|a: int, b: int| 0 <= a < b < out@.len() implies
                importance_rank(out@[a].importance) <= importance_rank(out@[b].importance) by {
                if b < p {
                } else if b == p {
                    assert(importance_rank(old_out[a].importance) <= importance_rank(x.importance)) by {
                        if a < p - 1 {
                            assert(importance_rank(old_out[a].importance) <= importance_rank(old_out[p - 1].importance));
                        }
                    }
                } else if a < p {
                } else if a == p {
                } else {
                }
            }
        }
        i = i + 1;
    }
    assert(insights@.take(insights@.len() as int) =~= insights@);
    out
}

/// The tally entry with the most touches (the first one on ties).
pub open spec fn is_top_entry(t: Seq<(u32, u32)>, i: int) -> bool {
    &&& 0 <= i < t.len()
    &&& forall|k: int| 0 <= k < t.len() ==> #[trigger] t[k].1 <= t[i].1
    &&& forall|k: int| 0 <= k < i ==> #[trigger] t[k].1 < t[i].1
}

fn top_entry(t: &Vec<(u32, u32)>) -> (r: usize)
    requires
        t@.len() > 0,
    ensures
        is_top_entry(t@, r as int),
{
    let mut best: usize = 0;
    let mut k: usize = 1;
    while k < t.len()
        invariant
            1 <= k <= t@.len(),
            best < k,
            forall|j: int| 0 <= j < k ==> #[trigger] t@[j].1 <= t@[best as int].1,
            forall|j: int| 0 <= j < best ==> #[trigger] t@[j].1 < t@[best as int].1,
        decreases t.len() - k,
    {
        if t[k].1 > t[best].1 {
            best = k;
        }
        k = k + 1;
    }
    best
}

/// The two possession insights for a clip with touch events: the player
/// with the most touches, and the overall involvement.
pub open spec fn possession_texts(player: u32, touches: u32, total: nat, players: nat) -> Seq<(Seq<char>, Seq<char>)> {
    seq![
        ("Most touches: Player #"@ + decimal(player as nat),
         "Player #"@ + decimal(player as nat) + " had the most ball involvement with "@ + decimal(touches as nat)
            + " proximity events."@),
        ("Ball involvement"@,
         decimal(total) + " total touch events across "@ + decimal(players) + " players."@),
    ]
}

/// Possession insights from the players credited with each touch event, in
/// order: a warning when there is none; otherwise the most involved player
/// (the first to reach the highest count) and the involvement summary.
pub fn generate_possession_insights(touch_player_ids: &Vec<u32>) -> (r: Vec<TacticalInsight>)
    requires
        touch_player_ids@.len() <= u32::MAX,
    ensures
        touch_player_ids@.len() == 0 ==> r@.len() == 1 && r@[0].category == InsightCategory::Possession
            && r@[0].title@ == "Ball not consistently tracked"@
            && r@[0].description@ == "Ball detection was limited. Possession data may be incomplete."@
            && r@[0].importance == Importance::Medium,
        touch_player_ids@.len() > 0 ==> exists|t: Seq<(u32, u32)>, i: int| {
            &&& is_tally_of(t, touch_player_ids@)
            &&& #[trigger] is_top_entry(t, i)
            &&& r@.len() == 2
            &&& r@[0].category == InsightCategory::Possession && r@[1].category == InsightCategory::Possession
            &&& r@[0].importance == Importance::Medium && r@[1].importance == Importance::Low
            &&& r@[0].title@ == possession_texts(t[i].0, t[i].1, touch_player_ids@.len(), t.len())[0].0
            &&& r@[0].description@ == possession_texts(t[i].0, t[i].1, touch_player_ids@.len(), t.len())[0].1
            &&& r@[1].title@ == possession_texts(t[i].0, t[i].1, touch_player_ids@.len(), t.len())[1].0
            &&& r@[1].description@ == possession_texts(t[i].0, t[i].1, touch_player_ids@.len(), t.len())[1].1
        },
{
    let mut out: Vec<TacticalInsight> = Vec::new();
    if touch_player_ids.len() == 0 {
        out.push(TacticalInsight::new(
            InsightCategory::Possession,
            String::from_str("Ball not consistently tracked"),
            String::from_str("Ball detection was limited. Possession data may be incomplete."),
            Importance::Medium,
        ));
        return out;
    }
    let tally = tally_ids(touch_player_ids);
    proof {
        assert(touch_player_ids@.contains(touch_player_ids@[0]));
    }
    let top = top_entry(&tally);
    let (player, touches) = tally[top];
    let mut title = String::from_str("Most touches: Player #");
    push_decimal(&mut title, player as u64);
    let mut desc = String::from_str("Player #");
    push_decimal(&mut desc, player as u64);
    push_str(&mut desc, " had the most ball involvement with ");
    push_decimal(&mut desc, touches as u64);
    push_str(&mut desc, " proximity events.");
    out.push(TacticalInsight::new(InsightCategory::Possession, title, desc, Importance::Medium));
    let mut desc2 = String::new();
    push_decimal(&mut desc2, touch_player_ids.len() as u64);
    push_str(&mut desc2, " total touch events across ");
    push_decimal(&mut desc2, tally.len() as u64);
    push_str(&mut desc2, " players.");
    out.push(TacticalInsight::new(InsightCategory::Possession, String::from_str("Ball involvement"), desc2, Importance::Low));
    proof {
        assert(is_top_entry(tally@, top as int));
        assert(out@[0].title@ =~= possession_texts(player, touches, touch_player_ids@.len(), tally@.len())[0].0);
        assert(out@[0].description@ =~= possession_texts(player, touches, touch_player_ids@.len(), tally@.len())[0].1);
        assert(out@[1].title@ =~= possession_texts(player, touches, touch_player_ids@.len(), tally@.len())[1].0);
        assert(out@[1].description@ =~= possession_texts(player, touches, touch_player_ids@.len(), tally@.len())[1].1);
    }
    out
}

/// Insight naming the dominant game phase.
pub fn generate_phase_insight(phase: PhaseLabel) -> (r: TacticalInsight)
    ensures
        r.category == InsightCategory::Formation,
        r.importance == Importance::High,
        r.title@ == "Main phase: "@ + phase_label(phase),
        r.description@ == "Most of this clip looks like "@ + phase_label(phase)
            + ". Useful for filtering clips by game phase instead of by highlight moment."@,
{
    let mut title = String::from_str("Main phase: ");
    push_str(&mut title, phase.label());
    let mut desc = String::from_str("Most of this clip looks like ");
    push_str(&mut desc, phase.label());
    push_str(&mut desc, ". Useful for filtering clips by game phase instead of by highlight moment.");
    TacticalInsight::new(InsightCategory::Formation, title, desc, Importance::High)
}

/// Insights on support around the ball, from the number of sampled moments
/// with fewer than two nearby supporters and with no central receiver.
pub fn generate_support_insights(weak_support: usize, no_central_receiver: usize) -> (r: Vec<TacticalInsight>)
    ensures
        r@.len() == (if weak_support > 0 { 1nat } else { 0nat }) + (if no_central_receiver > 0 { 1nat } else { 0nat }),
        forall|i: int| 0 <= i < r@.len() ==> #[trigger] r@[i].category == InsightCategory::Formation
            && r@[i].importance == Importance::High,
        weak_support > 0 ==> r@[0].title@ == "Ball carrier support is often weak"@
            && r@[0].description@ == decimal(weak_support as nat)
                + " sampled moments showed fewer than two nearby support options around the ball. This matters for pressure resistance and clean progression."@,
        no_central_receiver > 0 ==> r@.last().title@ == "Central receiver often missing"@
            && r@.last().description@ == decimal(no_central_receiver as nat)
                + " sampled possession moments had no central receiver option near the ball. The team may be forced wide or backwards too often."@,
{
    let mut out: Vec<TacticalInsight> = Vec::new();
    if weak_support > 0 {
        let mut d = String::new();
        push_decimal(&mut d, weak_support as u64);
        push_str(&mut d, " sampled moments showed fewer than two nearby support options around the ball. This matters for pressure resistance and clean progression.");
        out.push(TacticalInsight::new(InsightCategory::Formation, String::from_str("Ball carrier support is often weak"), d, Importance::High));
    }
    if no_central_receiver > 0 {
        let mut d = String::new();
        push_decimal(&mut d, no_central_receiver as u64);
        push_str(&mut d, " sampled possession moments had no central receiver option near the ball. The team may be forced wide or backwards too often.");
        out.push(TacticalInsight::new(InsightCategory::Formation, String::from_str("Central receiver often missing"), d, Importance::High));
    }
    out
}

/// Area insights from each tracked player's main area (in the order the
/// players are listed): the most common main area (the lowest-indexed one on
/// ties) with its player count, and the first listed player's area.
pub fn generate_area_insights(dominant: &Vec<(u32, PitchArea)>) -> (r: Vec<TacticalInsight>)
    requires
        dominant@.len() <= u32::MAX,
    ensures
        dominant@.len() == 0 ==> r@.len() == 0,
        dominant@.len() > 0 ==> ({
            let areas = dominant@.map_values(|x: (u32, PitchArea)| x.1);
            exists|a: PitchArea| {
                &&& #[trigger] count_area(areas, a) > 0
                &&& forall|b: PitchArea| #[trigger] count_area(areas, b) <= count_area(areas, a)
                &&& forall|b: PitchArea| area_index(b) < area_index(a) ==> #[trigger] count_area(areas, b) < count_area(areas, a)
                &&& r@.len() == 2
                &&& r@[0].category == InsightCategory::Formation && r@[0].importance == Importance::Medium
                &&& r@[0].title@ == "Main occupation zone: "@ + area_label(a)
                &&& r@[0].description@ == decimal(count_area(areas, a)) + " tracked players spent most of their time in the "@
                    + area_label(a) + ". Useful for spotting where the phase of play is happening."@
                &&& r@[1].category == InsightCategory::Formation && r@[1].importance == Importance::Low
                &&& r@[1].title@ == "Player #"@ + decimal(dominant@[0].0 as nat) + " operating zone"@
                &&& r@[1].description@ == "Player #"@ + decimal(dominant@[0].0 as nat) + " is spending most of the clip in the "@
                    + area_label(dominant@[0].1) + "."@
            }
        }),
{
    let mut out: Vec<TacticalInsight> = Vec::new();
    if dominant.len() == 0 {
        return out;
    }
    let ghost areas_spec = dominant@.map_values(|x: (u32, PitchArea)| x.1);
    let mut areas: Vec<PitchArea> = Vec::new();
    let mut i: usize = 0;
    while i < dominant.len()
        invariant
            i <= dominant@.len(),
            areas_spec == dominant@.map_values(|x: (u32, PitchArea)| x.1),
            areas@ == areas_spec.take(i as int),
        decreases dominant.len() - i,
    {
        areas.push(dominant[i].1);
        assert(areas@ =~= areas_spec.take(i + 1));
        i = i + 1;
    }
    assert(areas@ =~= areas_spec);
    let counts = area_counts(&areas);
    let a = match dominant_area(&counts) {
        Some(a) => a,
        None => {
            proof {
                let a0 = areas@[0];
                crate::pitch_mapping::lemma_area_index_roundtrip(a0);
                areas@.lemma_filter_contains(crate::metrics::is_area(a0), 0);
                assert(counts@[area_index(a0)] > 0);
            }
            return out;
        },
    };
    let n = counts[a.index()];
    let mut t0 = String::from_str("Main occupation zone: ");
    push_str(&mut t0, a.label());
    let mut d0 = String::new();
    push_decimal(&mut d0, n as u64);
    push_str(&mut d0, " tracked players spent most of their time in the ");
    push_str(&mut d0, a.label());
    push_str(&mut d0, ". Useful for spotting where the phase of play is happening.");
    out.push(TacticalInsight::new(InsightCategory::Formation, t0, d0, Importance::Medium));
    let (pid, parea) = dominant[0];
    let mut t1 = String::from_str("Player #");
    push_decimal(&mut t1, pid as u64);
    push_str(&mut t1, " operating zone");
    let mut d1 = String::from_str("Player #");
    push_decimal(&mut d1, pid as u64);
    push_str(&mut d1, " is spending most of the clip in the ");
    push_str(&mut d1, parea.label());
    push_str(&mut d1, ".");
    out.push(TacticalInsight::new(InsightCategory::Formation, t1, d1, Importance::Low));
    proof {
        crate::pitch_mapping::lemma_area_index_roundtrip(a);
        assert(n == count_area(areas_spec, a));
        assert forall|b: PitchArea| #[trigger] count_area(areas_spec, b) <= count_area(areas_spec, a) by {
            crate::pitch_mapping::lemma_area_index_roundtrip(b);
            assert(counts@[area_index(b)] <= counts@[area_index(a)]);
        }
        assert forall|b: PitchArea| area_index(b) < area_index(a) implies #[trigger] count_area(areas_spec, b) < count_area(areas_spec, a) by {
            crate::pitch_mapping::lemma_area_index_roundtrip(b);
            assert(counts@[area_index(b)] < counts@[area_index(a)]);
        }
        assert(out@[0].title@ =~= "Main occupation zone: "@ + area_label(a));
        assert(out@[0].description@ =~= decimal(count_area(areas_spec, a)) + " tracked players spent most of their time in the "@
                    + area_label(a) + ". Useful for spotting where the phase of play is happening."@);
        assert(out@[1].title@ =~= "Player #"@ + decimal(dominant@[0].0 as nat) + " operating zone"@);
        assert(out@[1].description@ =~= "Player #"@ + decimal(dominant@[0].0 as nat) + " is spending most of the clip in the "@
                    + area_label(dominant@[0].1) + "."@);
    }
    out
}

} // verus!
