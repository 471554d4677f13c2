//! Discretisation of continuous power readings into Markov states.

use vstd::prelude::*;
use crate::hardware::{classify_hardware, hardware_kind, HardwareKind};

verus! {

/// Power thresholds of an H100 node.
pub open spec fn h100_thresholds() -> Seq<i64> {
    seq![100i64, 280i64, 460i64, 600i64, 700i64]
}

/// Power thresholds of an A100 node.
pub open spec fn a100_thresholds() -> Seq<i64> {
    seq![60i64, 150i64, 250i64, 350i64, 400i64]
}

/// Power thresholds of an L4 node.
pub open spec fn l4_thresholds() -> Seq<i64> {
    seq![12i64, 28i64, 48i64, 62i64, 72i64]
}

/// Threshold table of a hardware name (empty for an unsupported one).
pub open spec fn threshold_table(name: Seq<u8>) -> Seq<i64> {
    match hardware_kind(name) {
        HardwareKind::H100 => h100_thresholds(),
        HardwareKind::A100 => a100_thresholds(),
        HardwareKind::L4 => l4_thresholds(),
        HardwareKind::Other => Seq::empty(),
    }
}

/// First index `j >= i` whose threshold lies above `reading`, or the last state.
pub open spec fn first_above(thresholds: Seq<i64>, reading: i64, i: int) -> nat
    decreases thresholds.len() - i,
{
    if i < 0 || i >= thresholds.len() {
        (thresholds.len() - 1) as nat
    } else if reading < thresholds[i] {
        i as nat
    } else {
        first_above(thresholds, reading, i + 1)
    }
}

/// State of a reading: the first threshold above it, or the last state when none is.
pub open spec fn state_of(thresholds: Seq<i64>, reading: i64) -> nat {
    first_above(thresholds, reading, 0)
}

/// Thresholds strictly increase.
pub open spec fn ascending(thresholds: Seq<i64>) -> bool {
    forall|i: int, j: int| 0 <= i < j < thresholds.len() ==> thresholds[i] < thresholds[j]
}

/// Maps power readings to discrete states by a per-hardware threshold table.
///
/// A reading is a power sample in milliwatts rounded down to an integer. Because
/// every threshold is a whole number, `power < t` and `floor(power) < t` agree, so
/// the state of a reading is that of the sample it was taken from.
pub struct Discretiser {
    num_states: usize,
    thresholds: Vec<i64>,
}

impl Discretiser {
    /// The threshold table in use.
    pub closed spec fn thresholds(&self) -> Seq<i64> {
        self.thresholds@
    }

    /// Number of states the discretiser distinguishes.
    pub closed spec fn num_states(&self) -> nat {
        self.num_states as nat
    }

    /// One state per threshold, at least one state, and increasing thresholds.
    pub open spec fn wf(&self) -> bool {
        &&& self.num_states() == self.thresholds().len()
        &&& self.num_states() >= 1
        &&& ascending(self.thresholds())
    }

    /// The discretiser of a supported hardware model.
    pub fn new(hardware: &str) -> (d: Self)
        requires
            hardware_kind(vstd::utf8::encode_utf8(hardware@)) != HardwareKind::Other,
        ensures
            d.wf(),
            d.thresholds() == threshold_table(vstd::utf8::encode_utf8(hardware@)),
    {
        let thresholds: Vec<i64> = match classify_hardware(hardware) {
            HardwareKind::H100 => vec![100i64, 280i64, 460i64, 600i64, 700i64],
            HardwareKind::A100 => vec![60i64, 150i64, 250i64, 350i64, 400i64],
            HardwareKind::L4 => vec![12i64, 28i64, 48i64, 62i64, 72i64],
            HardwareKind::Other => Vec::new(),
        };
        assert(thresholds@ =~= threshold_table(vstd::utf8::encode_utf8(hardware@)));
        Discretiser { num_states: thresholds.len(), thresholds }
    }

    /// Memoryless mapping of one reading to its state.
    pub fn process(&self, reading: i64) -> (s: usize)
        requires
            self.wf(),
        ensures
            s == state_of(self.thresholds(), reading),
            s < self.num_states(),
    {
        let mut i: usize = 0;
        while i < self.thresholds.len()
            invariant
                i <= self.thresholds@.len(),
                self.wf(),
                first_above(self.thresholds@, reading, 0) == first_above(
                    self.thresholds@,
                    reading,
                    i as int,
                ),
            decreases self.thresholds@.len() - i,
        {
            if reading < self.thresholds[i] {
                return i;
            }
            i = i + 1;
        }
        self.num_states - 1
    }
}

/// Every reading maps to one of the table's states.
pub proof fn lemma_state_in_range(thresholds: Seq<i64>, reading: i64)
    requires
        thresholds.len() >= 1,
    ensures
        state_of(thresholds, reading) < thresholds.len(),
{
    lemma_first_above_in_range(thresholds, reading, 0);
}

proof fn lemma_first_above_in_range(thresholds: Seq<i64>, reading: i64, i: int)
    requires
        thresholds.len() >= 1,
        i >= 0,
    ensures
        first_above(thresholds, reading, i) < thresholds.len(),
    decreases thresholds.len() - i,
{
    if i < thresholds.len() && reading >= thresholds[i] {
        lemma_first_above_in_range(thresholds, reading, i + 1);
    }
}

/// Discretisation is monotone: a higher reading never maps to a lower state.
pub proof fn lemma_state_monotone(thresholds: Seq<i64>, low: i64, high: i64)
    requires
        thresholds.len() >= 1,
        low <= high,
    ensures
        state_of(thresholds, low) <= state_of(thresholds, high),
{
    lemma_first_above_monotone(thresholds, low, high, 0);
}

proof fn lemma_first_above_monotone(thresholds: Seq<i64>, low: i64, high: i64, i: int)
    requires
        thresholds.len() >= 1,
        low <= high,
        i >= 0,
    ensures
        first_above(thresholds, low, i) <= first_above(thresholds, high, i),
    decreases thresholds.len() - i,
{
    if i < thresholds.len() {
        if low < thresholds[i] {
            lemma_first_above_lower_bound(thresholds, high, i);
        } else {
            lemma_first_above_monotone(thresholds, low, high, i + 1);
        }
    }
}

proof fn lemma_first_above_lower_bound(thresholds: Seq<i64>, reading: i64, i: int)
    requires
        thresholds.len() >= 1,
        0 <= i < thresholds.len(),
    ensures
        i <= first_above(thresholds, reading, i),
    decreases thresholds.len() - i,
{
    if reading >= thresholds[i] {
        if i + 1 < thresholds.len() {
            lemma_first_above_lower_bound(thresholds, reading, i + 1);
        } else {
            assert(first_above(thresholds, reading, i + 1) == thresholds.len() - 1);
        }
    }
}

/// A reading below a state's threshold, and at or above the previous one, maps to
/// that state (for increasing thresholds).
pub proof fn lemma_state_bracket(thresholds: Seq<i64>, reading: i64, s: int)
    requires
        ascending(thresholds),
        0 <= s < thresholds.len(),
        reading < thresholds[s],
        s > 0 ==> thresholds[s - 1] <= reading,
    ensures
        state_of(thresholds, reading) == s,
{
    lemma_first_above_bracket(thresholds, reading, s, 0);
}

proof fn lemma_first_above_bracket(thresholds: Seq<i64>, reading: i64, s: int, i: int)
    requires
        ascending(thresholds),
        0 <= i <= s < thresholds.len(),
        reading < thresholds[s],
        s > 0 ==> thresholds[s - 1] <= reading,
    ensures
        first_above(thresholds, reading, i) == s,
    decreases s - i,
{
    if i < s {
        assert(thresholds[i] <= reading) by {
            if i < s - 1 {
                assert(thresholds[i] < thresholds[s - 1]);
            }
        }
        lemma_first_above_bracket(thresholds, reading, s, i + 1);
    }
}

/// A reading at or above every threshold maps to the last state.
pub proof fn lemma_state_above_all(thresholds: Seq<i64>, reading: i64)
    requires
        thresholds.len() >= 1,
        forall|i: int| 0 <= i < thresholds.len() ==> thresholds[i] <= reading,
    ensures
        state_of(thresholds, reading) == thresholds.len() - 1,
{
    lemma_first_above_all(thresholds, reading, 0);
}

proof fn lemma_first_above_all(thresholds: Seq<i64>, reading: i64, i: int)
    requires
        thresholds.len() >= 1,
        0 <= i <= thresholds.len(),
        forall|j: int| 0 <= j < thresholds.len() ==> thresholds[j] <= reading,
    ensures
        first_above(thresholds, reading, i) == thresholds.len() - 1,
    decreases thresholds.len() - i,
{
    if i < thresholds.len() {
        lemma_first_above_all(thresholds, reading, i + 1);
    }
}

/// States of five increasing thresholds `t0 < t1 < t2 < t3 < t4`: below `t0` is
/// state 0, `[t0, t1)` state 1, `[t1, t2)` state 2, `[t2, t3)` state 3, and `t3` or
/// above state 4.
proof fn lemma_five_states(th: Seq<i64>, t0: i64, t1: i64, t2: i64, t3: i64, t4: i64, r: i64)
    requires
        th == seq![t0, t1, t2, t3, t4],
        t0 < t1 < t2 < t3 < t4,
    ensures
        state_of(th, r) == (if r < t0 {
            0nat
        } else if r < t1 {
            1nat
        } else if r < t2 {
            2nat
        } else if r < t3 {
            3nat
        } else {
            4nat
        }),
{
    assert(th[0] == t0 && th[1] == t1 && th[2] == t2 && th[3] == t3 && th[4] == t4);
    assert(ascending(th));
    if r < t0 {
        lemma_state_bracket(th, r, 0);
    } else if r < t1 {
        lemma_state_bracket(th, r, 1);
    } else if r < t2 {
        lemma_state_bracket(th, r, 2);
    } else if r < t3 {
        lemma_state_bracket(th, r, 3);
    } else if r < t4 {
        lemma_state_bracket(th, r, 4);
    } else {
        lemma_state_above_all(th, r);
    }
}

/// An H100 reading maps to state 0 below 100 mW, 1 in [100, 280), 2 in [280, 460),
/// 3 in [460, 600), and 4 from 600 up.
pub proof fn lemma_h100_states(name: Seq<u8>, reading: i64)
    requires
        hardware_kind(name) == HardwareKind::H100,
    ensures
        state_of(threshold_table(name), reading) == (if reading < 100 {
            0nat
        } else if reading < 280 {
            1nat
        } else if reading < 460 {
            2nat
        } else if reading < 600 {
            3nat
        } else {
            4nat
        }),
{
    lemma_five_states(threshold_table(name), 100, 280, 460, 600, 700, reading);
}

/// An A100 reading maps to state 0 below 60 mW, 1 in [60, 150), 2 in [150, 250),
/// 3 in [250, 350), and 4 from 350 up.
pub proof fn lemma_a100_states(name: Seq<u8>, reading: i64)
    requires
        hardware_kind(name) == HardwareKind::A100,
    ensures
        state_of(threshold_table(name), reading) == (if reading < 60 {
            0nat
        } else if reading < 150 {
            1nat
        } else if reading < 250 {
            2nat
        } else if reading < 350 {
            3nat
        } else {
            4nat
        }),
{
    lemma_five_states(threshold_table(name), 60, 150, 250, 350, 400, reading);
}

/// An L4 reading maps to state 0 below 12 mW, 1 in [12, 28), 2 in [28, 48),
/// 3 in [48, 62), and 4 from 62 up.
pub proof fn lemma_l4_states(name: Seq<u8>, reading: i64)
    requires
        hardware_kind(name) == HardwareKind::L4,
    ensures
        state_of(threshold_table(name), reading) == (if reading < 12 {
            0nat
        } else if reading < 28 {
            1nat
        } else if reading < 48 {
            2nat
        } else if reading < 62 {
            3nat
        } else {
            4nat
        }),
{
    lemma_five_states(threshold_table(name), 12, 28, 48, 62, 72, reading);
}

/// The last threshold of every supported table lies above its fourth: H100 700,
/// A100 400, L4 72. Readings between the fourth and fifth threshold share state 4
/// with those above the fifth, since the last state absorbs everything above.
pub proof fn lemma_last_thresholds(name: Seq<u8>)
    requires
        hardware_kind(name) != HardwareKind::Other,
    ensures
        threshold_table(name).len() == 5,
        hardware_kind(name) == HardwareKind::H100 ==> threshold_table(name)[4] == 700,
        hardware_kind(name) == HardwareKind::A100 ==> threshold_table(name)[4] == 400,
        hardware_kind(name) == HardwareKind::L4 ==> threshold_table(name)[4] == 72,
{
}

} // verus!
