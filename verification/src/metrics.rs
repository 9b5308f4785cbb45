use vstd::prelude::*;
use crate::pitch_mapping::{PitchArea, area_index, area_of_index, lemma_area_index_roundtrip, lemma_index_area_roundtrip};
use crate::text::push_str;

verus! {

broadcast use vstd::seq_lib::group_filter_ensures;

/// One of the two teams.
#[derive(Debug, Clone, Copy, PartialEq, Eq, Hash, Structural)]
pub enum TeamId {
    TeamA,
    TeamB,
}

/// Display text of a team.
pub open spec fn team_label(t: TeamId) -> Seq<char> {
    match t {
        TeamId::TeamA => "Team A"@,
        TeamId::TeamB => "Team B"@,
    }
}

impl TeamId {
    /// Display text of the team.
    pub fn label(&self) -> (r: &'static str)
        ensures
            r@ == team_label(*self),
    {
        match self {
            TeamId::TeamA => "Team A",
            TeamId::TeamB => "Team B",
        }
    }

    /// The opposing team.
    pub fn other(&self) -> (r: TeamId)
        ensures
            r != *self,
    {
        match self {
            TeamId::TeamA => TeamId::TeamB,
            TeamId::TeamB => TeamId::TeamA,
        }
    }

    /// Index of the team (A is 0, B is 1).
    pub fn index(&self) -> (r: usize)
        ensures
            r == team_index(*self),
    {
        match self {
            TeamId::TeamA => 0,
            TeamId::TeamB => 1,
        }
    }
}

/// Index of a team (A is 0, B is 1).
pub open spec fn team_index(t: TeamId) -> usize {
    match t {
        TeamId::TeamA => 0,
        TeamId::TeamB => 1,
    }
}

/// Game phase a player's movement suggests.
#[derive(Debug, Clone, Copy, PartialEq, Eq, Structural)]
pub enum PhaseLabel {
    BuildUp,
    Progression,
    FinalThird,
    DefensiveBlock,
    HighPress,
    AttackingTransition,
    DefensiveTransition,
}

/// Display text of a phase.
pub open spec fn phase_label(p: PhaseLabel) -> Seq<char> {
    match p {
        PhaseLabel::BuildUp => "Build-up"@,
        PhaseLabel::Progression => "Progression"@,
        PhaseLabel::FinalThird => "Final Third"@,
        PhaseLabel::DefensiveBlock => "Defensive Block"@,
        PhaseLabel::HighPress => "High Press"@,
        PhaseLabel::AttackingTransition => "Attacking Transition"@,
        PhaseLabel::DefensiveTransition => "Defensive Transition"@,
    }
}

/// Position of a phase in declaration order.
pub open spec fn phase_index(p: PhaseLabel) -> int {
    match p {
        PhaseLabel::BuildUp => 0,
        PhaseLabel::Progression => 1,
        PhaseLabel::FinalThird => 2,
        PhaseLabel::DefensiveBlock => 3,
        PhaseLabel::HighPress => 4,
        PhaseLabel::AttackingTransition => 5,
        PhaseLabel::DefensiveTransition => 6,
    }
}

/// The phase at a position in declaration order.
pub open spec fn phase_of_index(i: int) -> PhaseLabel {
    if i == 0 { PhaseLabel::BuildUp }
    else if i == 1 { PhaseLabel::Progression }
    else if i == 2 { PhaseLabel::FinalThird }
    else if i == 3 { PhaseLabel::DefensiveBlock }
    else if i == 4 { PhaseLabel::HighPress }
    else if i == 5 { PhaseLabel::AttackingTransition }
    else { PhaseLabel::DefensiveTransition }
}

impl PhaseLabel {
    /// Display text of the phase.
    pub fn label(&self) -> (r: &'static str)
        ensures
            r@ == phase_label(*self),
    {
        match self {
            PhaseLabel::BuildUp => "Build-up",
            PhaseLabel::Progression => "Progression",
            PhaseLabel::FinalThird => "Final Third",
            PhaseLabel::DefensiveBlock => "Defensive Block",
            PhaseLabel::HighPress => "High Press",
            PhaseLabel::AttackingTransition => "Attacking Transition",
            PhaseLabel::DefensiveTransition => "Defensive Transition",
        }
    }

    fn from_index(i: usize) -> (r: PhaseLabel)
        requires
            i < 7,
        ensures
            r == phase_of_index(i as int),
            phase_index(r) == i,
    {
        if i == 0 { PhaseLabel::BuildUp }
        else if i == 1 { PhaseLabel::Progression }
        else if i == 2 { PhaseLabel::FinalThird }
        else if i == 3 { PhaseLabel::DefensiveBlock }
        else if i == 4 { PhaseLabel::HighPress }
        else if i == 5 { PhaseLabel::AttackingTransition }
        else { PhaseLabel::DefensiveTransition }
    }
}

/// Whether two texts are equal.
fn text_eq(a: &str, b: &str) -> (r: bool)
    ensures
        r == (a@ == b@),
{
    let x = String::from_str(a);
    let y = String::from_str(b);
    x == y
}

/// The phase whose display text is `label`, if any.
pub fn parse_phase_label(label: &str) -> (r: Option<PhaseLabel>)
    ensures
        r matches Some(p) ==> phase_label(p) == label@,
        r is None ==> forall|i: int| 0 <= i < 7 ==> phase_label(#[trigger] phase_of_index(i)) != label@,
{
    let mut i: usize = 0;
    while i < 7
        invariant
            i <= 7,
            forall|k: int| 0 <= k < i ==> phase_label(#[trigger] phase_of_index(k)) != label@,
        decreases 7 - i,
    {
        let p = PhaseLabel::from_index(i);
        if text_eq(p.label(), label) {
            return Some(p);
        }
        i = i + 1;
    }
    None
}

/// The phases' display texts are all different, so a phase reads back from its text.
pub proof fn lemma_phase_label_roundtrip(p: PhaseLabel, q: PhaseLabel)
    ensures
        phase_label(p) == phase_label(q) ==> p == q,
{
    reveal_strlit("Build-up");
    reveal_strlit("Progression");
    reveal_strlit("Final Third");
    reveal_strlit("Defensive Block");
    reveal_strlit("High Press");
    reveal_strlit("Attacking Transition");
    reveal_strlit("Defensive Transition");
    if phase_label(p) == phase_label(q) && p != q {
        assert(phase_label(p).len() == phase_label(q).len());
        assert(phase_label(p)[0] == phase_label(q)[0]);
        assert(phase_label(p)[phase_label(p).len() - 1] == phase_label(q)[phase_label(q).len() - 1]);
    }
}

/// Selects area `a`.
pub open spec fn is_area(a: PitchArea) -> spec_fn(PitchArea) -> bool {
    |b: PitchArea| b == a
}

/// How often `a` occurs in `s`.
pub open spec fn count_area(s: Seq<PitchArea>, a: PitchArea) -> nat {
    s.filter(is_area(a)).len()
}

/// Tallies how often each area occurs; entry `k` counts the area with index `k`.
pub fn area_counts(areas: &Vec<PitchArea>) -> (r: Vec<u32>)
    requires
        areas@.len() <= u32::MAX,
    ensures
        r@.len() == 9,
        forall|k: int| 0 <= k < 9 ==> #[trigger] r@[k] == count_area(areas@, area_of_index(k)),
{
    let mut counts: Vec<u32> = vec![0, 0, 0, 0, 0, 0, 0, 0, 0];
    let mut i: usize = 0;
    proof {
        assert forall|k: int| 0 <= k < 9 implies #[trigger] counts@[k] == count_area(areas@.take(0), area_of_index(k)) by {
            assert(areas@.take(0).filter(is_area(area_of_index(k))) =~= Seq::<PitchArea>::empty()) by {
                reveal(Seq::filter);
            }
        }
    }
    while i < areas.len()
        invariant
            i <= areas@.len(),
            areas@.len() <= u32::MAX,
            counts@.len() == 9,
            forall|k: int| 0 <= k < 9 ==> #[trigger] counts@[k] == count_area(areas@.take(i as int), area_of_index(k)),
        decreases areas.len() - i,
    {
        let a = areas[i];
        let k = a.index();
        proof {
            lemma_area_index_roundtrip(a);
            assert(areas@.take(i + 1) =~= areas@.take(i as int).push(a));
            assert forall|m: int| 0 <= m < 9 implies count_area(areas@.take(i + 1), area_of_index(m))
                == count_area(areas@.take(i as int), area_of_index(m)) + if m == k { 1nat } else { 0nat } by {
                areas@.take(i as int).lemma_filter_push(a, is_area(area_of_index(m)));
                lemma_index_area_roundtrip(m);
                if m == k {
                    assert(area_of_index(m) == a);
                }
            }
            assert(count_area(areas@.take(i as int), a) <= i) by {
                areas@.take(i as int).lemma_filter_len(is_area(a));
            }
        }
        let c = counts[k];
        counts.set(k, c + 1);
        i = i + 1;
    }
    assert(areas@.take(areas@.len() as int) =~= areas@);
    counts
}

/// The most frequent area in a tally (the lowest-indexed one on ties);
/// `None` when the tally is all zero.
pub fn dominant_area(counts: &Vec<u32>) -> (r: Option<PitchArea>)
    requires
        counts@.len() == 9,
    ensures
        r is None <==> forall|k: int| 0 <= k < 9 ==> #[trigger] counts@[k] == 0,
        r matches Some(a) ==> {
            &&& counts@[area_index(a)] > 0
            &&& forall|k: int| 0 <= k < 9 ==> #[trigger] counts@[k] <= counts@[area_index(a)]
            &&& forall|k: int| 0 <= k < area_index(a) ==> #[trigger] counts@[k] < counts@[area_index(a)]
        },
{
    let mut best: usize = 0;
    let mut k: usize = 1;
    while k < 9
        invariant
            counts@.len() == 9,
            1 <= k <= 9,
            best < k,
            forall|j: int| 0 <= j < k ==> #[trigger] counts@[j] <= counts@[best as int],
            forall|j: int| 0 <= j < best ==> #[trigger] counts@[j] < counts@[best as int],
        decreases 9 - k,
    {
        if counts[k] > counts[best] {
            best = k;
        }
        k = k + 1;
    }
    if counts[best] == 0 {
        return None;
    }
    let a = PitchArea::from_bands((best / 3) as u8, (best % 3) as u8);
    proof {
        lemma_area_index_roundtrip(a);
        assert(area_index(a) == best);
    }
    Some(a)
}

/// Selects phase `p`.
pub open spec fn is_phase(p: PhaseLabel) -> spec_fn(PhaseLabel) -> bool {
    |q: PhaseLabel| q == p
}

/// How often phase `p` occurs in `s`.
pub open spec fn count_phase(s: Seq<PhaseLabel>, p: PhaseLabel) -> nat {
    s.filter(is_phase(p)).len()
}

proof fn lemma_phase_index_roundtrip(p: PhaseLabel)
    ensures
        0 <= phase_index(p) < 7,
        phase_of_index(phase_index(p)) == p,
{
}

/// The phase seen most often (the earliest-declared one on ties); `None`
/// when there are no phase events.
pub fn most_common_phase(phases: &Vec<PhaseLabel>) -> (r: Option<PhaseLabel>)
    ensures
        r is None <==> phases@.len() == 0,
        r matches Some(p) ==> {
            &&& count_phase(phases@, p) > 0
            &&& forall|q: PhaseLabel| #[trigger] count_phase(phases@, q) <= count_phase(phases@, p)
            &&& forall|q: PhaseLabel| phase_index(q) < phase_index(p) ==> #[trigger] count_phase(phases@, q) < count_phase(phases@, p)
        },
{
    let mut counts: Vec<usize> = vec![0, 0, 0, 0, 0, 0, 0];
    let mut i: usize = 0;
    proof {
        assert forall|k: int| 0 <= k < 7 implies #[trigger] counts@[k] == count_phase(phases@.take(0), phase_of_index(k)) by {
            assert(phases@.take(0).filter(is_phase(phase_of_index(k))) =~= Seq::<PhaseLabel>::empty()) by {
                reveal(Seq::filter);
            }
        }
    }
    while i < phases.len()
        invariant
            i <= phases@.len(),
            counts@.len() == 7,
            forall|k: int| 0 <= k < 7 ==> #[trigger] counts@[k] == count_phase(phases@.take(i as int), phase_of_index(k)),
        decreases phases.len() - i,
    {
        let p = phases[i];
        let k: usize = match p {
            PhaseLabel::BuildUp => 0,
            PhaseLabel::Progression => 1,
            PhaseLabel::FinalThird => 2,
            PhaseLabel::DefensiveBlock => 3,
            PhaseLabel::HighPress => 4,
            PhaseLabel::AttackingTransition => 5,
            PhaseLabel::DefensiveTransition => 6,
        };
        proof {
            assert(phases@.take(i + 1) =~= phases@.take(i as int).push(p));
            assert forall|m: int| 0 <= m < 7 implies count_phase(phases@.take(i + 1), phase_of_index(m))
                == count_phase(phases@.take(i as int), phase_of_index(m)) + if m == k { 1nat } else { 0nat } by {
                phases@.take(i as int).lemma_filter_push(p, is_phase(phase_of_index(m)));
            }
            assert(count_phase(phases@.take(i as int), p) <= i) by {
                phases@.take(i as int).lemma_filter_len(is_phase(p));
            }
        }
        let c = counts[k];
        counts.set(k, c + 1);
        i = i + 1;
    }
    assert(phases@.take(phases@.len() as int) =~= phases@);
    let mut best: usize = 0;
    let mut k: usize = 1;
    while k < 7
        invariant
            counts@.len() == 7,
            1 <= k <= 7,
            best < k,
            forall|j: int| 0 <= j < k ==> #[trigger] counts@[j] <= counts@[best as int],
            forall|j: int| 0 <= j < best ==> #[trigger] counts@[j] < counts@[best as int],
        decreases 7 - k,
    {
        if counts[k] > counts[best] {
            best = k;
        }
        k = k + 1;
    }
    if counts[best] == 0 {
        proof {
            if phases@.len() > 0 {
                let p = phases@[0];
                lemma_phase_index_roundtrip(p);
                phases@.lemma_filter_contains(is_phase(p), 0);
                assert(counts@[phase_index(p)] > 0);
            }
        }
        return None;
    }
    let p = PhaseLabel::from_index(best);
    proof {
        assert forall|q: PhaseLabel| #[trigger] count_phase(phases@, q) <= count_phase(phases@, p) by {
            lemma_phase_index_roundtrip(q);
            assert(counts@[phase_index(q)] <= counts@[best as int]);
        }
        assert forall|q: PhaseLabel| phase_index(q) < phase_index(p) implies #[trigger] count_phase(phases@, q) < count_phase(phases@, p) by {
            lemma_phase_index_roundtrip(q);
            assert(counts@[phase_index(q)] < counts@[best as int]);
        }
        if phases@.len() == 0 {
            assert(phases@.filter(is_phase(p)) =~= Seq::<PhaseLabel>::empty()) by { reveal(Seq::filter); }
        }
    }
    Some(p)
}

/// Selects the pairs of team `t` in area `a`.
pub open spec fn is_team_area(t: TeamId, a: PitchArea) -> spec_fn((TeamId, PitchArea)) -> bool {
    |x: (TeamId, PitchArea)| x.0 == t && x.1 == a
}

/// Players of team `t` whose main area is `a`.
pub open spec fn count_team_area(s: Seq<(TeamId, PitchArea)>, t: TeamId, a: PitchArea) -> nat {
    s.filter(is_team_area(t, a)).len()
}

/// Slot of team `t` and area `a` in a team/area tally.
pub open spec fn team_area_slot(t: TeamId, a: PitchArea) -> int {
    team_index(t) * 9 + area_index(a)
}

/// Tallies players by team and main area: entry `team * 9 + area` counts
/// the players of that team whose main area it is.
pub fn team_area_counts(pairs: &Vec<(TeamId, PitchArea)>) -> (r: Vec<usize>)
    ensures
        r@.len() == 18,
        forall|t: TeamId, a: PitchArea| #[trigger] r@[team_area_slot(t, a)] == count_team_area(pairs@, t, a),
{
    let mut counts: Vec<usize> = Vec::new();
    let mut z: usize = 0;
    while z < 18
        invariant
            z <= 18,
            counts@.len() == z,
            forall|k: int| 0 <= k < z ==> #[trigger] counts@[k] == 0,
        decreases 18 - z,
    {
        counts.push(0);
        z = z + 1;
    }
    proof {
        assert forall|t: TeamId, a: PitchArea| #[trigger] counts@[team_area_slot(t, a)] == count_team_area(pairs@.take(0), t, a) by {
            lemma_area_index_roundtrip(a);
            assert(pairs@.take(0).filter(is_team_area(t, a)) =~= Seq::<(TeamId, PitchArea)>::empty()) by {
                reveal(Seq::filter);
            }
        }
    }
    let mut i: usize = 0;
    while i < pairs.len()
        invariant
            i <= pairs@.len(),
            counts@.len() == 18,
            forall|t: TeamId, a: PitchArea| #[trigger] counts@[team_area_slot(t, a)] == count_team_area(pairs@.take(i as int), t, a),
        decreases pairs.len() - i,
    {
        let x = pairs[i];
        let slot = x.0.index() * 9 + x.1.index();
        let ghost before = counts@;
        proof {
            lemma_area_index_roundtrip(x.1);
            assert(pairs@.take(i + 1) =~= pairs@.take(i as int).push(x));
            assert(count_team_area(pairs@.take(i as int), x.0, x.1) <= i) by {
                pairs@.take(i as int).lemma_filter_len(is_team_area(x.0, x.1));
            }
        }
        let c = counts[slot];
        assert(slot == team_area_slot(x.0, x.1));
        assert(c == count_team_area(pairs@.take(i as int), x.0, x.1));
        counts.set(slot, c + 1);
        proof {
            assert forall|t: TeamId, a: PitchArea| #[trigger] counts@[team_area_slot(t, a)] == count_team_area(pairs@.take(i + 1), t, a) by {
                lemma_area_index_roundtrip(a);
                pairs@.take(i as int).lemma_filter_push(x, is_team_area(t, a));
                if team_area_slot(t, a) == slot {
                    assert(t == x.0 && area_index(a) == area_index(x.1));
                    assert(a == x.1) by {
                        lemma_area_index_roundtrip(x.1);
                    }
                } else {
                    assert(!(t == x.0 && a == x.1));
                }
            }
        }
        i = i + 1;
    }
    assert(pairs@.take(pairs@.len() as int) =~= pairs@);
    counts
}

/// Sum of the tally entries of team `t` over the listed areas.
pub open spec fn band_total(counts: Seq<usize>, t: TeamId, areas: Seq<PitchArea>) -> nat
    decreases areas.len(),
{
    if areas.len() == 0 {
        0
    } else {
        band_total(counts, t, areas.drop_last()) + counts[team_area_slot(t, areas.last())] as nat
    }
}

/// Number of team `t` players whose main area is one of `areas`, from a
/// team/area tally.
pub fn area_band_total(counts: &Vec<usize>, team: TeamId, areas: &Vec<PitchArea>) -> (r: usize)
    requires
        counts@.len() == 18,
        band_total(counts@, team, areas@) <= usize::MAX,
    ensures
        r == band_total(counts@, team, areas@),
{
    let mut total: usize = 0;
    let mut i: usize = 0;
    while i < areas.len()
        invariant
            i <= areas@.len(),
            counts@.len() == 18,
            total == band_total(counts@, team, areas@.take(i as int)),
            band_total(counts@, team, areas@) <= usize::MAX,
        decreases areas.len() - i,
    {
        let a = areas[i];
        proof {
            lemma_area_index_roundtrip(a);
            assert(areas@.take(i + 1).drop_last() =~= areas@.take(i as int));
            lemma_band_total_prefix(counts@, team, areas@, i + 1);
        }
        total = total + counts[team.index() * 9 + a.index()];
        i = i + 1;
    }
    assert(areas@.take(areas@.len() as int) =~= areas@);
    total
}

proof fn lemma_band_total_prefix(counts: Seq<usize>, t: TeamId, areas: Seq<PitchArea>, i: int)
    requires
        0 <= i <= areas.len(),
    ensures
        band_total(counts, t, areas.take(i)) <= band_total(counts, t, areas),
    decreases areas.len() - i,
{
    if i < areas.len() {
        lemma_band_total_prefix(counts, t, areas, i + 1);
        assert(areas.take(i + 1).drop_last() =~= areas.take(i));
    } else {
        assert(areas.take(i) =~= areas);
    }
}

/// Lane-occupation warnings for a team.
#[derive(Debug, Clone, Copy, PartialEq, Eq, Structural)]
pub enum OccupationAlertKind {
    LeftSideBias,
    RightSideBias,
    CentralWeak,
    WideOverload,
    CentralSpare,
}

/// The occupation warnings raised for a team with `left`, `center` and
/// `right` players mainly in each lane, in the order they are reported
/// (doubling saturates at the machine word).
pub open spec fn occupation_kinds(left: nat, center: nat, right: nat) -> Seq<OccupationAlertKind> {
    let max4 = |x: nat| if x >= 4 { x } else { 4 };
    let sat2 = |x: nat| if x * 2 <= usize::MAX { x * 2 } else { usize::MAX as nat };
    let min2 = if left <= right { left } else { right };
    let s1: Seq<OccupationAlertKind> = if left >= max4(sat2(right)) {
        seq![OccupationAlertKind::LeftSideBias]
    } else if right >= max4(sat2(left)) {
        seq![OccupationAlertKind::RightSideBias]
    } else {
        seq![]
    };
    let s2 = if center <= min2 / 2 && center <= 2 { s1.push(OccupationAlertKind::CentralWeak) } else { s1 };
    let s3 = if left >= center + 3 || right >= center + 3 { s2.push(OccupationAlertKind::WideOverload) } else { s2 };
    if center >= left + 3 && center >= right + 3 { s3.push(OccupationAlertKind::CentralSpare) } else { s3 }
}

/// Place of a warning kind in the order warnings are reported.
pub open spec fn occupation_rank(k: OccupationAlertKind) -> int {
    match k {
        OccupationAlertKind::LeftSideBias => 0,
        OccupationAlertKind::RightSideBias => 1,
        OccupationAlertKind::CentralWeak => 2,
        OccupationAlertKind::WideOverload => 3,
        OccupationAlertKind::CentralSpare => 4,
    }
}

/// The occupation warnings for `left`, `center` and `right` players per lane
/// (each at most the machine word less 3): a left-side bias when the left
/// wing holds at least four players and at least twice the right; otherwise
/// a right-side bias under the mirrored condition; weak central occupation
/// when the centre holds at most two players and at most half the smaller
/// wing; a wide overload when some wing holds at least three more than the
/// centre; a central spare player when the centre holds at least three more
/// than each wing. Each warning is reported at most once, in that order.
pub proof fn lemma_occupation_alerts_meaning(left: usize, center: usize, right: usize)
    requires
        center + 3 <= usize::MAX,
        left + 3 <= usize::MAX,
        right + 3 <= usize::MAX,
    ensures
        ({
            let k = occupation_kinds(left as nat, center as nat, right as nat);
            let left_bias = left >= 4 && left >= 2 * right;
            let right_bias = !left_bias && right >= 4 && right >= 2 * left;
            let smaller = if left <= right { left as int } else { right as int };
            &&& k.contains(OccupationAlertKind::LeftSideBias) <==> left_bias
            &&& k.contains(OccupationAlertKind::RightSideBias) <==> right_bias
            &&& k.contains(OccupationAlertKind::CentralWeak) <==> (center <= 2 && 2 * center <= smaller)
            &&& k.contains(OccupationAlertKind::WideOverload) <==> (left >= center + 3 || right >= center + 3)
            &&& k.contains(OccupationAlertKind::CentralSpare) <==> (center >= left + 3 && center >= right + 3)
            &&& forall|i: int, j: int| 0 <= i < j < k.len() ==> occupation_rank(#[trigger] k[i]) < occupation_rank(#[trigger] k[j])
        }),
{
    let k = occupation_kinds(left as nat, center as nat, right as nat);
    let l = left as nat;
    let c = center as nat;
    let r = right as nat;
    let max4 = |x: nat| if x >= 4 { x } else { 4 };
    let sat2 = |x: nat| if x * 2 <= usize::MAX { x * 2 } else { usize::MAX as nat };
    let min2 = if l <= r { l } else { r };
    let s1: Seq<OccupationAlertKind> = if l >= max4(sat2(r)) {
        seq![OccupationAlertKind::LeftSideBias]
    } else if r >= max4(sat2(l)) {
        seq![OccupationAlertKind::RightSideBias]
    } else {
        seq![]
    };
    let s2 = if c <= min2 / 2 && c <= 2 { s1.push(OccupationAlertKind::CentralWeak) } else { s1 };
    let s3 = if l >= c + 3 || r >= c + 3 { s2.push(OccupationAlertKind::WideOverload) } else { s2 };
    let s4 = if c >= l + 3 && c >= r + 3 { s3.push(OccupationAlertKind::CentralSpare) } else { s3 };
    assert(k == s4);
    assert((l >= max4(sat2(r))) <==> (left >= 4 && left >= 2 * right));
    assert((r >= max4(sat2(l))) <==> (right >= 4 && right >= 2 * left));
    assert((c <= min2 / 2) <==> (2 * center <= (if left <= right { left as int } else { right as int })));
    assert forall|i: int, j: int| 0 <= i < j < s1.len() implies occupation_rank(#[trigger] s1[i]) < occupation_rank(#[trigger] s1[j]) by {}
    assert forall|i: int| 0 <= i < s1.len() implies occupation_rank(#[trigger] s1[i]) <= 1 by {}
    assert forall|i: int| 0 <= i < s2.len() implies occupation_rank(#[trigger] s2[i]) <= 2 by {
        if i < s1.len() { assert(s2[i] == s1[i]); }
    }
    assert forall|i: int, j: int| 0 <= i < j < s2.len() implies occupation_rank(#[trigger] s2[i]) < occupation_rank(#[trigger] s2[j]) by {
        if j < s1.len() { assert(s2[i] == s1[i] && s2[j] == s1[j]); } else { assert(s2[i] == s1[i]); }
    }
    assert forall|i: int| 0 <= i < s3.len() implies occupation_rank(#[trigger] s3[i]) <= 3 by {
        if i < s2.len() { assert(s3[i] == s2[i]); }
    }
    assert forall|i: int, j: int| 0 <= i < j < s3.len() implies occupation_rank(#[trigger] s3[i]) < occupation_rank(#[trigger] s3[j]) by {
        if j < s2.len() { assert(s3[i] == s2[i] && s3[j] == s2[j]); } else { assert(s3[i] == s2[i]); }
    }
    assert forall|i: int, j: int| 0 <= i < j < s4.len() implies occupation_rank(#[trigger] s4[i]) < occupation_rank(#[trigger] s4[j]) by {
        if j < s3.len() { assert(s4[i] == s3[i] && s4[j] == s3[j]); } else { assert(s4[i] == s3[i]); }
    }
    assert forall|x: OccupationAlertKind| #[trigger] s4.contains(x) <==> (
        s1.contains(x)
        || (x == OccupationAlertKind::CentralWeak && c <= min2 / 2 && c <= 2)
        || (x == OccupationAlertKind::WideOverload && (l >= c + 3 || r >= c + 3))
        || (x == OccupationAlertKind::CentralSpare && c >= l + 3 && c >= r + 3)) by {
        if s4.contains(x) {
            let i = choose|i: int| 0 <= i < s4.len() && s4[i] == x;
            if i < s1.len() {
                assert(s2[i] == s1[i] && s3[i] == s2[i]);
            } else if i < s2.len() {
                assert(s3[i] == s2[i]);
            } else if i < s3.len() {
            }
        }
        if s1.contains(x) {
            let i = choose|i: int| 0 <= i < s1.len() && s1[i] == x;
            assert(s2[i] == s1[i] && s3[i] == s2[i] && s4[i] == s3[i]);
        }
        if x == OccupationAlertKind::CentralWeak && c <= min2 / 2 && c <= 2 {
            assert(s2[s1.len() as int] == x);
            assert(s3[s1.len() as int] == x && s4[s1.len() as int] == x);
        }
        if x == OccupationAlertKind::WideOverload && (l >= c + 3 || r >= c + 3) {
            assert(s3[s2.len() as int] == x && s4[s2.len() as int] == x);
        }
        if x == OccupationAlertKind::CentralSpare && c >= l + 3 && c >= r + 3 {
            assert(s4[s3.len() as int] == x);
        }
    }
    assert(s4.contains(OccupationAlertKind::LeftSideBias) == s1.contains(OccupationAlertKind::LeftSideBias));
    assert(s4.contains(OccupationAlertKind::RightSideBias) == s1.contains(OccupationAlertKind::RightSideBias));
    assert(!s1.contains(OccupationAlertKind::CentralWeak) && !s1.contains(OccupationAlertKind::WideOverload)
        && !s1.contains(OccupationAlertKind::CentralSpare)) by {
        if s1.len() > 0 { assert(s1[0] == OccupationAlertKind::LeftSideBias || s1[0] == OccupationAlertKind::RightSideBias); }
    }
    if l >= max4(sat2(r)) {
        assert(s1[0] == OccupationAlertKind::LeftSideBias);
        assert(!s1.contains(OccupationAlertKind::RightSideBias));
    } else if r >= max4(sat2(l)) {
        assert(s1[0] == OccupationAlertKind::RightSideBias);
        assert(!s1.contains(OccupationAlertKind::LeftSideBias));
    }
}

/// Title of an occupation warning.
pub open spec fn occupation_title(k: OccupationAlertKind) -> Seq<char> {
    match k {
        OccupationAlertKind::LeftSideBias => "Left-side bias"@,
        OccupationAlertKind::RightSideBias => "Right-side bias"@,
        OccupationAlertKind::CentralWeak => "Central occupation is weak"@,
        OccupationAlertKind::WideOverload => "Wide overload detected"@,
        OccupationAlertKind::CentralSpare => "Spare player available centrally"@,
    }
}

/// Explanation of an occupation warning, after the team's name.
pub open spec fn occupation_tail(k: OccupationAlertKind) -> Seq<char> {
    match k {
        OccupationAlertKind::LeftSideBias =>
            " are heavily tilted to the left side. Opponent can anticipate circulation there."@,
        OccupationAlertKind::RightSideBias =>
            " are heavily tilted to the right side. Useful if intentional, predictable if repeated."@,
        OccupationAlertKind::CentralWeak =>
            " are not occupying the central lane enough. The middle of the pitch may be available to the opponent."@,
        OccupationAlertKind::WideOverload =>
            " are creating a visible wide overload. Useful if it is deliberate and supported, risky if the far side is empty."@,
        OccupationAlertKind::CentralSpare =>
            " appear to keep more occupation in the central lane than on either wing. There may be a spare player between lines."@,
    }
}

/// Severity of an occupation warning, in hundredths.
pub open spec fn occupation_severity(k: OccupationAlertKind) -> u32 {
    match k {
        OccupationAlertKind::LeftSideBias => 61,
        OccupationAlertKind::RightSideBias => 61,
        OccupationAlertKind::CentralWeak => 84,
        OccupationAlertKind::WideOverload => 58,
        OccupationAlertKind::CentralSpare => 63,
    }
}

impl OccupationAlertKind {
    /// Title of the warning.
    pub fn title(&self) -> (r: &'static str)
        ensures
            r@ == occupation_title(*self),
    {
        match self {
            OccupationAlertKind::LeftSideBias => "Left-side bias",
            OccupationAlertKind::RightSideBias => "Right-side bias",
            OccupationAlertKind::CentralWeak => "Central occupation is weak",
            OccupationAlertKind::WideOverload => "Wide overload detected",
            OccupationAlertKind::CentralSpare => "Spare player available centrally",
        }
    }

    /// Explanation of the warning for `team`.
    pub fn description(&self, team: TeamId) -> (r: String)
        ensures
            r@ == team_label(team) + occupation_tail(*self),
    {
        let mut s = String::from_str(team.label());
        let tail = match self {
            OccupationAlertKind::LeftSideBias =>
                " are heavily tilted to the left side. Opponent can anticipate circulation there.",
            OccupationAlertKind::RightSideBias =>
                " are heavily tilted to the right side. Useful if intentional, predictable if repeated.",
            OccupationAlertKind::CentralWeak =>
                " are not occupying the central lane enough. The middle of the pitch may be available to the opponent.",
            OccupationAlertKind::WideOverload =>
                " are creating a visible wide overload. Useful if it is deliberate and supported, risky if the far side is empty.",
            OccupationAlertKind::CentralSpare =>
                " appear to keep more occupation in the central lane than on either wing. There may be a spare player between lines.",
        };
        push_str(&mut s, tail);
        s
    }

    /// Severity of the warning, in hundredths.
    pub fn severity_hundredths(&self) -> (r: u32)
        ensures
            r == occupation_severity(*self),
    {
        match self {
            OccupationAlertKind::LeftSideBias => 61,
            OccupationAlertKind::RightSideBias => 61,
            OccupationAlertKind::CentralWeak => 84,
            OccupationAlertKind::WideOverload => 58,
            OccupationAlertKind::CentralSpare => 63,
        }
    }
}

/// Lane-occupation warnings for a team with `left`, `center` and `right`
/// players mainly in each lane: a side bias when one wing holds at least
/// twice the other (and at least four), weak central occupation, a wide
/// overload, or a central spare player.
pub fn occupation_alerts(left: usize, center: usize, right: usize) -> (r: Vec<OccupationAlertKind>)
    requires
        center + 3 <= usize::MAX,
        left + 3 <= usize::MAX,
        right + 3 <= usize::MAX,
    ensures
        r@ == occupation_kinds(left as nat, center as nat, right as nat),
{
    let mut out: Vec<OccupationAlertKind> = Vec::new();
    let r2 = if right <= usize::MAX / 2 { right * 2 } else { usize::MAX };
    let l2 = if left <= usize::MAX / 2 { left * 2 } else { usize::MAX };
    let r2_4 = if r2 >= 4 { r2 } else { 4 };
    let l2_4 = if l2 >= 4 { l2 } else { 4 };
    if left >= r2_4 {
        out.push(OccupationAlertKind::LeftSideBias);
    } else if right >= l2_4 {
        out.push(OccupationAlertKind::RightSideBias);
    }
    let min2 = if left <= right { left } else { right };
    if center <= min2 / 2 && center <= 2 {
        out.push(OccupationAlertKind::CentralWeak);
    }
    if left >= center + 3 || right >= center + 3 {
        out.push(OccupationAlertKind::WideOverload);
    }
    if center >= left + 3 && center >= right + 3 {
        out.push(OccupationAlertKind::CentralSpare);
    }
    assert(out@ =~= occupation_kinds(left as nat, center as nat, right as nat));
    out
}

/// Third of the pitch where a pressing moment happens.
#[derive(Debug, Clone, Copy, PartialEq, Eq, Structural)]
pub enum PitchZone {
    DefensiveThird,
    MiddleThird,
    AttackingThird,
}

/// Display text of a pressing zone.
pub open spec fn zone_label(z: PitchZone) -> Seq<char> {
    match z {
        PitchZone::DefensiveThird => "Defensive Third"@,
        PitchZone::MiddleThird => "Middle Third"@,
        PitchZone::AttackingThird => "Attacking Third"@,
    }
}

/// Position of a zone in declaration order.
pub open spec fn zone_index(z: PitchZone) -> int {
    match z {
        PitchZone::DefensiveThird => 0,
        PitchZone::MiddleThird => 1,
        PitchZone::AttackingThird => 2,
    }
}

impl PitchZone {
    /// Display text of the zone.
    pub fn label(&self) -> (r: &'static str)
        ensures
            r@ == zone_label(*self),
    {
        match self {
            PitchZone::DefensiveThird => "Defensive Third",
            PitchZone::MiddleThird => "Middle Third",
            PitchZone::AttackingThird => "Attacking Third",
        }
    }
}

/// Selects zone `z`.
pub open spec fn is_zone(z: PitchZone) -> spec_fn(PitchZone) -> bool {
    |y: PitchZone| y == z
}

/// How often zone `z` occurs in `s`.
pub open spec fn count_zone(s: Seq<PitchZone>, z: PitchZone) -> nat {
    s.filter(is_zone(z)).len()
}

/// Summary of pressing moments by zone: the zone with the most moments
/// (the earliest-declared one on ties) with its count, and the number of
/// moments in the attacking third; `None` when there is no moment.
pub fn pressing_zone_summary(zones: &Vec<PitchZone>) -> (r: Option<(PitchZone, usize, usize)>)
    ensures
        r is None <==> zones@.len() == 0,
        r matches Some((z, n, high)) ==> {
            &&& n == count_zone(zones@, z)
            &&& n > 0
            &&& forall|y: PitchZone| #[trigger] count_zone(zones@, y) <= n
            &&& forall|y: PitchZone| zone_index(y) < zone_index(z) ==> #[trigger] count_zone(zones@, y) < n
            &&& high == count_zone(zones@, PitchZone::AttackingThird)
        },
{
    let mut c0: usize = 0;
    let mut c1: usize = 0;
    let mut c2: usize = 0;
    let mut i: usize = 0;
    proof {
        assert(zones@.take(0) =~= Seq::<PitchZone>::empty());
        assert forall|z: PitchZone| #[trigger] count_zone(zones@.take(0), z) == 0 by {
            assert(zones@.take(0).filter(is_zone(z)) =~= Seq::<PitchZone>::empty()) by { reveal(Seq::filter); }
        }
    }
    while i < zones.len()
        invariant
            i <= zones@.len(),
            c0 == count_zone(zones@.take(i as int), PitchZone::DefensiveThird),
            c1 == count_zone(zones@.take(i as int), PitchZone::MiddleThird),
            c2 == count_zone(zones@.take(i as int), PitchZone::AttackingThird),
            c0 + c1 + c2 == i,
        decreases zones.len() - i,
    {
        let z = zones[i];
        proof {
            assert(zones@.take(i + 1) =~= zones@.take(i as int).push(z));
            zones@.take(i as int).lemma_filter_push(z, is_zone(PitchZone::DefensiveThird));
            zones@.take(i as int).lemma_filter_push(z, is_zone(PitchZone::MiddleThird));
            zones@.take(i as int).lemma_filter_push(z, is_zone(PitchZone::AttackingThird));
        }
        match z {
            PitchZone::DefensiveThird => { c0 = c0 + 1; },
            PitchZone::MiddleThird => { c1 = c1 + 1; },
            PitchZone::AttackingThird => { c2 = c2 + 1; },
        }
        i = i + 1;
    }
    assert(zones@.take(zones@.len() as int) =~= zones@);
    if zones.len() == 0 {
        return None;
    }
    let (z, n) = if c0 >= c1 && c0 >= c2 {
        (PitchZone::DefensiveThird, c0)
    } else if c1 >= c2 {
        (PitchZone::MiddleThird, c1)
    } else {
        (PitchZone::AttackingThird, c2)
    };
    Some((z, n, c2))
}

} // verus!
