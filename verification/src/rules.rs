//! Automaton rules: a weighted neighbor kernel plus spawn/keep probability
//! tables indexed by the kernel-weighted neighbor score, and their
//! human-readable form (an ASCII kernel diagram with keyed tables).
use vstd::pervasive::VecAdditionalExecFns;
use vstd::prelude::*;

use crate::ext::push_char;
use crate::fixed::{Probability, PROB_ONE};
use crate::grid::Coordinates;

verus! {

/// A kernel weight, also used as the key type of the probability tables.
pub type Weight = u32;

/// Score-keyed probability entries of the human-readable rules.
pub type ProbabilityTable = Vec<(Weight, Probability)>;

/// Upper bound on the rows and columns of a kernel diagram, so that
/// offsets and table sizes stay within machine integers.
pub const MAX_KERNEL_DIM: usize = 0x1000;

/// Parsed rules: kernel offsets with weights, and dense probability
/// tables of length `weight sum + 1`, indexed by score.
#[derive(Debug)]
pub struct Rules {
    pub(crate) kernel: Vec<(Coordinates, Weight)>,
    pub(crate) spawn: Vec<Probability>,
    pub(crate) keep: Vec<Probability>,
}

#[derive(Clone, Copy, Debug, PartialEq, Eq)]
pub enum RulesParseError {
    UnknownSymbol(char),
    MissingKernelCenter,
    WeightOutOfBounds(Weight),
}

/// The human-authored form: an ASCII kernel diagram (digits are weights,
/// `X` marks the center) and two score-keyed probability tables.
#[derive(Debug)]
pub struct HumanRules {
    pub kernel: Vec<String>,
    pub spawn: ProbabilityTable,
    pub keep: ProbabilityTable,
}

pub open spec fn is_digit_char(c: char) -> bool {
    48 <= c as int <= 57
}

/// A diagram character is recognized at row `i`, column `j`: a space, a
/// digit weight, or the one center marker itself. A second `X` anywhere
/// else is an unknown symbol, since the diagram must hold exactly one
/// center.
pub open spec fn kernel_char_ok_at(c: char, i: int, j: int, cx: int, cy: int) -> bool {
    c == ' ' || is_digit_char(c) || (c == 'X' && i == cy && j == cx)
}

pub open spec fn digit_val(c: char) -> u32 {
    (c as int - 48) as u32
}

/// Position of the first `X` in `line` at or after `j`.
pub open spec fn spec_first_x(line: Seq<char>, j: int) -> Option<int>
    decreases line.len() - j,
{
    if j < 0 || j >= line.len() {
        None
    } else if line[j] == 'X' {
        Some(j)
    } else {
        spec_first_x(line, j + 1)
    }
}

/// The kernel center: the first `X` of the first row that has one,
/// searched from row `i` on, as `(column, row)`.
pub open spec fn spec_center(lines: Seq<String>, i: int) -> Option<(int, int)>
    decreases lines.len() - i,
{
    if i < 0 || i >= lines.len() {
        None
    } else {
        match spec_first_x(lines[i]@, 0) {
            Some(j) => Some((j, i)),
            None => spec_center(lines, i + 1),
        }
    }
}

/// The first unrecognized character of the row at or after column `j`,
/// relative to the center `(cx, cy)`.
pub open spec fn spec_kernel_row_bad(line: Seq<char>, row: int, cx: int, cy: int, j: int) -> Option<
    char,
>
    decreases line.len() - j,
{
    if j < 0 || j >= line.len() {
        None
    } else if !kernel_char_ok_at(line[j], row, j, cx, cy) {
        Some(line[j])
    } else {
        spec_kernel_row_bad(line, row, cx, cy, j + 1)
    }
}

/// The first unrecognized diagram character in row-major scan order,
/// searched from row `i` on, relative to the center `(cx, cy)`.
pub open spec fn spec_kernel_bad_from(lines: Seq<String>, cx: int, cy: int, i: int) -> Option<char>
    decreases lines.len() - i,
{
    if i < 0 || i >= lines.len() {
        None
    } else {
        match spec_kernel_row_bad(lines[i]@, i, cx, cy, 0) {
            Some(c) => Some(c),
            None => spec_kernel_bad_from(lines, cx, cy, i + 1),
        }
    }
}

/// Kernel entries contributed by the first `j` characters of row `row`.
pub open spec fn spec_row_entries(line: Seq<char>, row: int, cx: int, cy: int, j: int) -> Seq<
    (Coordinates, Weight),
>
    decreases j,
{
    if j <= 0 {
        Seq::empty()
    } else {
        let rest = spec_row_entries(line, row, cx, cy, j - 1);
        let c = line[j - 1];
        if is_digit_char(c) {
            rest.push(
                (Coordinates { x: (j - 1 - cx) as i32, y: (row - cy) as i32 }, digit_val(c)),
            )
        } else {
            rest
        }
    }
}

/// Kernel entries contributed by the first `i` rows.
pub open spec fn spec_kernel_entries(lines: Seq<String>, cx: int, cy: int, i: int) -> Seq<
    (Coordinates, Weight),
>
    decreases i,
{
    if i <= 0 {
        Seq::empty()
    } else {
        spec_kernel_entries(lines, cx, cy, i - 1) + spec_row_entries(
            lines[i - 1]@,
            i - 1,
            cx,
            cy,
            lines[i - 1]@.len() as int,
        )
    }
}

/// Sum of the weights of the first `k` kernel entries.
pub open spec fn weight_prefix(ker: Seq<(Coordinates, Weight)>, k: int) -> int
    decreases k,
{
    if k <= 0 {
        0
    } else {
        weight_prefix(ker, k - 1) + ker[k - 1].1
    }
}

/// One kernel entry within bounds: a digit weight at a non-origin offset.
pub open spec fn entry_ok(e: (Coordinates, Weight)) -> bool {
    &&& e.1 <= 9
    &&& -0x4000 <= e.0.x <= 0x4000
    &&& -0x4000 <= e.0.y <= 0x4000
    &&& !(e.0.x == 0 && e.0.y == 0)
}

/// A table of `len` zero probabilities.
pub open spec fn zero_probs(len: int) -> Seq<Probability> {
    Seq::new(len as nat, |i: int| 0u32)
}

/// The dense table after applying the first `k` keyed entries in order.
pub open spec fn spec_apply_table(
    base: Seq<Probability>,
    t: Seq<(Weight, Probability)>,
    k: int,
) -> Seq<Probability>
    decreases k,
{
    if k <= 0 {
        base
    } else {
        spec_apply_table(base, t, k - 1).update(t[k - 1].0 as int, t[k - 1].1)
    }
}

/// The first key at or after position `k` that does not fit a dense table
/// of length `bound`.
pub open spec fn spec_first_bad_key(t: Seq<(Weight, Probability)>, bound: int, k: int) -> Option<
    Weight,
>
    decreases t.len() - k,
{
    if k < 0 || k >= t.len() {
        None
    } else if t[k].0 >= bound {
        Some(t[k].0)
    } else {
        spec_first_bad_key(t, bound, k + 1)
    }
}

impl Rules {
    pub closed spec fn spec_kernel(self) -> Seq<(Coordinates, Weight)> {
        self.kernel@
    }

    pub closed spec fn spec_spawn(self) -> Seq<Probability> {
        self.spawn@
    }

    pub closed spec fn spec_keep(self) -> Seq<Probability> {
        self.keep@
    }

    /// Sum of all kernel weights, the largest possible score.
    pub open spec fn spec_total(self) -> int {
        weight_prefix(self.spec_kernel(), self.spec_kernel().len() as int)
    }

    pub open spec fn wf(self) -> bool {
        &&& self.spec_kernel().len() <= 0x100_0000
        &&& forall|k: int|
            0 <= k < self.spec_kernel().len() ==> entry_ok(#[trigger] self.spec_kernel()[k])
        &&& self.spec_spawn().len() == self.spec_total() + 1
        &&& self.spec_keep().len() == self.spec_total() + 1
    }

    /// Every probability of both tables is at most 1.
    pub open spec fn probs_ok(self) -> bool {
        &&& forall|i: int|
            0 <= i < self.spec_spawn().len() ==> #[trigger] self.spec_spawn()[i] <= PROB_ONE
        &&& forall|i: int|
            0 <= i < self.spec_keep().len() ==> #[trigger] self.spec_keep()[i] <= PROB_ONE
    }

    /// Check that every probability is in `[0, 1]`; the kernel structure
    /// itself is guaranteed by parsing.
    pub fn are_valid(&self) -> (r: bool)
        ensures
            r == self.probs_ok(),
    {
        let mut i: usize = 0;
        let ns = self.spawn.len();
        while i < ns
            invariant
                i <= ns,
                ns == self.spec_spawn().len(),
                forall|j: int| 0 <= j < i ==> #[trigger] self.spec_spawn()[j] <= PROB_ONE,
            decreases ns - i,
        {
            if self.spawn[i] > PROB_ONE {
                return false;
            }
            i = i + 1;
        }
        let mut i: usize = 0;
        let nk = self.keep.len();
        while i < nk
            invariant
                i <= nk,
                nk == self.spec_keep().len(),
                forall|j: int| 0 <= j < i ==> #[trigger] self.spec_keep()[j] <= PROB_ONE,
            decreases nk - i,
        {
            if self.keep[i] > PROB_ONE {
                return false;
            }
            i = i + 1;
        }
        true
    }
}

/// Within the crate, the spec views of `Rules` are its fields.
pub(crate) broadcast proof fn lemma_rules_fields(r: Rules)
    ensures
        #[trigger] r.spec_kernel() == r.kernel@,
        r.spec_spawn() == r.spawn@,
        r.spec_keep() == r.keep@,
{
}

/// Weight sums of well-bounded entries grow at most nine per entry.
pub proof fn lemma_weight_prefix_bounds(ker: Seq<(Coordinates, Weight)>, k: int)
    requires
        k <= ker.len(),
        forall|i: int| 0 <= i < ker.len() ==> entry_ok(#[trigger] ker[i]),
    ensures
        0 <= weight_prefix(ker, k) <= if k >= 0 {
            9 * k
        } else {
            0
        },
    decreases k,
{
    if k > 0 {
        lemma_weight_prefix_bounds(ker, k - 1);
    }
}

/// A found center lies on an `X` inside the diagram.
pub proof fn lemma_center_props(lines: Seq<String>, i: int)
    requires
        0 <= i,
    ensures
        match spec_center(lines, i) {
            Some(c) => {
                &&& i <= c.1 < lines.len()
                &&& 0 <= c.0 < lines[c.1]@.len()
                &&& lines[c.1]@[c.0] == 'X'
            },
            None => true,
        },
    decreases lines.len() - i,
{
    if 0 <= i < lines.len() {
        lemma_first_x_props(lines[i]@, 0);
        if spec_first_x(lines[i]@, 0) is None {
            lemma_center_props(lines, i + 1);
        }
    }
}

/// A found `X` position indexes an `X`.
pub proof fn lemma_first_x_props(line: Seq<char>, j: int)
    requires
        0 <= j,
    ensures
        match spec_first_x(line, j) {
            Some(p) => j <= p < line.len() && line[p] == 'X',
            None => true,
        },
    decreases line.len() - j,
{
    if 0 <= j < line.len() && line[j] != 'X' {
        lemma_first_x_props(line, j + 1);
    }
}

impl HumanRules {
    /// The diagram fits the kernel bounds.
    pub open spec fn input_wf(self) -> bool {
        &&& self.kernel@.len() <= MAX_KERNEL_DIM
        &&& forall|i: int|
            0 <= i < self.kernel@.len() ==> (#[trigger] self.kernel@[i]@).len() <= MAX_KERNEL_DIM
    }

    /// Locate the kernel center marker.
    fn find_center(&self) -> (r: Option<(usize, usize)>)
        requires
            self.input_wf(),
        ensures
            match r {
                Some(c) => spec_center(self.kernel@, 0) == Some((c.0 as int, c.1 as int)),
                None => spec_center(self.kernel@, 0) is None,
            },
    {
        let rows = self.kernel.len();
        let mut i: usize = 0;
        while i < rows
            invariant
                rows == self.kernel@.len(),
                i <= rows,
                spec_center(self.kernel@, 0) == spec_center(self.kernel@, i as int),
            decreases rows - i,
        {
            let line = &self.kernel[i];
            let len = line.as_str().unicode_len();
            let mut j: usize = 0;
            while j < len
                invariant
                    rows == self.kernel@.len(),
                    i < rows,
                    line@ == self.kernel@[i as int]@,
                    len == self.kernel@[i as int]@.len(),
                    j <= len,
                    spec_center(self.kernel@, 0) == spec_center(self.kernel@, i as int),
                    spec_first_x(self.kernel@[i as int]@, 0) == spec_first_x(
                        self.kernel@[i as int]@,
                        j as int,
                    ),
                decreases len - j,
            {
                let c = line.as_str().get_char(j);
                if c == 'X' {
                    return Some((j, i));
                }
                j = j + 1;
            }
            i = i + 1;
        }
        None
    }

    /// The diagram entries, relative to the first center found.
    pub open spec fn spec_entries(self) -> Seq<(Coordinates, Weight)> {
        let c = spec_center(self.kernel@, 0)->Some_0;
        spec_kernel_entries(self.kernel@, c.0, c.1, self.kernel@.len() as int)
    }

    /// The largest possible neighbor score of the diagram.
    pub open spec fn spec_entry_total(self) -> int {
        weight_prefix(self.spec_entries(), self.spec_entries().len() as int)
    }

    /// Parsing succeeds: exactly one center exists, every character is
    /// recognized, and every table key fits the score range.
    pub open spec fn spec_parse_ok(self) -> bool {
        &&& spec_center(self.kernel@, 0) is Some
        &&& {
            let c = spec_center(self.kernel@, 0)->Some_0;
            spec_kernel_bad_from(self.kernel@, c.0, c.1, 0) is None
        }
        &&& spec_first_bad_key(self.spawn@, self.spec_entry_total() + 1, 0) is None
        &&& spec_first_bad_key(self.keep@, self.spec_entry_total() + 1, 0) is None
    }

    /// `rules` is exactly what parsing this human form yields.
    pub open spec fn spec_parses_to(self, rules: Rules) -> bool {
        &&& self.spec_parse_ok()
        &&& rules.wf()
        &&& rules.spec_kernel() == self.spec_entries()
        &&& rules.spec_spawn() == spec_apply_table(
            zero_probs(self.spec_entry_total() + 1),
            self.spawn@,
            self.spawn@.len() as int,
        )
        &&& rules.spec_keep() == spec_apply_table(
            zero_probs(self.spec_entry_total() + 1),
            self.keep@,
            self.keep@.len() as int,
        )
    }

    /// Every probability that parsing this human form yields is at most 1.
    pub open spec fn spec_parsed_probs_ok(self) -> bool {
        let total = self.spec_entry_total();
        let spawn = spec_apply_table(zero_probs(total + 1), self.spawn@, self.spawn@.len() as int);
        let keep = spec_apply_table(zero_probs(total + 1), self.keep@, self.keep@.len() as int);
        &&& forall|i: int| 0 <= i < spawn.len() ==> #[trigger] spawn[i] <= PROB_ONE
        &&& forall|i: int| 0 <= i < keep.len() ==> #[trigger] keep[i] <= PROB_ONE
    }

    /// `e` is the error that parsing this human form yields.
    pub open spec fn spec_parse_error_matches(self, e: RulesParseError) -> bool {
        match e {
            RulesParseError::MissingKernelCenter => spec_center(self.kernel@, 0) is None,
            RulesParseError::UnknownSymbol(c) => {
                &&& spec_center(self.kernel@, 0) is Some
                &&& {
                    let ctr = spec_center(self.kernel@, 0)->Some_0;
                    // the reported character is the first unrecognized
                    // one in row-major scan order (a second center
                    // marker among them)
                    spec_kernel_bad_from(self.kernel@, ctr.0, ctr.1, 0) == Some(c)
                }
            },
            RulesParseError::WeightOutOfBounds(k) => {
                &&& spec_center(self.kernel@, 0) is Some
                &&& {
                    let ctr = spec_center(self.kernel@, 0)->Some_0;
                    spec_kernel_bad_from(self.kernel@, ctr.0, ctr.1, 0) is None
                }
                &&& {
                    let total = self.spec_entry_total();
                    ||| spec_first_bad_key(self.spawn@, total + 1, 0) == Some(k)
                    ||| (spec_first_bad_key(self.spawn@, total + 1, 0) is None
                        && spec_first_bad_key(self.keep@, total + 1, 0) == Some(k))
                }
            },
        }
    }

    /// Parse the human form into dense rules.
    pub fn parse(&self) -> (r: Result<Rules, RulesParseError>)
        requires
            self.input_wf(),
        ensures
            match r {
                Ok(rules) => self.spec_parses_to(rules),
                Err(e) => self.spec_parse_error_matches(e),
            },
    {
        let (cx, cy) = match self.find_center() {
            Some(c) => c,
            None => {
                return Err(RulesParseError::MissingKernelCenter);
            },
        };
        proof {
            lemma_center_props(self.kernel@, 0);
        }
        let rows = self.kernel.len();
        let mut entries: Vec<(Coordinates, Weight)> = Vec::new();
        let mut i: usize = 0;
        while i < rows
            invariant
                self.input_wf(),
                rows == self.kernel@.len(),
                i <= rows,
                0 <= cx < MAX_KERNEL_DIM,
                0 <= cy < rows,
                spec_center(self.kernel@, 0) == Some((cx as int, cy as int)),
                self.kernel@[cy as int]@[cx as int] == 'X',
                cx < self.kernel@[cy as int]@.len(),
                entries@ == spec_kernel_entries(self.kernel@, cx as int, cy as int, i as int),
                entries@.len() <= i * MAX_KERNEL_DIM,
                forall|k: int| 0 <= k < entries@.len() ==> entry_ok(#[trigger] entries@[k]),
                spec_kernel_bad_from(self.kernel@, cx as int, cy as int, 0)
                    == spec_kernel_bad_from(self.kernel@, cx as int, cy as int, i as int),
            decreases rows - i,
        {
            let line = &self.kernel[i];
            let len = line.as_str().unicode_len();
            let mut j: usize = 0;
            while j < len
                invariant
                    self.input_wf(),
                    rows == self.kernel@.len(),
                    i < rows,
                    line@ == self.kernel@[i as int]@,
                    len == self.kernel@[i as int]@.len(),
                    len <= MAX_KERNEL_DIM,
                    j <= len,
                    0 <= cx < MAX_KERNEL_DIM,
                    0 <= cy < rows,
                    spec_center(self.kernel@, 0) == Some((cx as int, cy as int)),
                    self.kernel@[cy as int]@[cx as int] == 'X',
                    cx < self.kernel@[cy as int]@.len(),
                    entries@ == spec_kernel_entries(self.kernel@, cx as int, cy as int, i as int)
                        + spec_row_entries(
                        self.kernel@[i as int]@,
                        i as int,
                        cx as int,
                        cy as int,
                        j as int,
                    ),
                    entries@.len() <= i * MAX_KERNEL_DIM + j,
                    forall|k: int| 0 <= k < entries@.len() ==> entry_ok(#[trigger] entries@[k]),
                    spec_kernel_bad_from(self.kernel@, cx as int, cy as int, 0)
                        == spec_kernel_bad_from(self.kernel@, cx as int, cy as int, i as int),
                    spec_kernel_row_bad(self.kernel@[i as int]@, i as int, cx as int, cy as int, 0)
                        == spec_kernel_row_bad(
                        self.kernel@[i as int]@,
                        i as int,
                        cx as int,
                        cy as int,
                        j as int,
                    ),
                decreases len - j,
            {
                let c = line.as_str().get_char(j);
                let code = c as u32;
                if c == ' ' || (c == 'X' && i == cy && j == cx) {
                } else if code >= 48 && code <= 57 {
                    let off = Coordinates {
                        x: (j as i32) - (cx as i32),
                        y: (i as i32) - (cy as i32),
                    };
                    proof {
                        if off.x == 0 && off.y == 0 {
                            assert(self.kernel@[i as int]@[j as int] == 'X');
                            assert(false);
                        }
                    }
                    entries.push((off, code - 48));
                } else {
                    // unrecognized, or a second center marker: the
                    // first offender in row-major order
                    proof {
                        assert(!kernel_char_ok_at(
                            self.kernel@[i as int]@[j as int],
                            i as int,
                            j as int,
                            cx as int,
                            cy as int,
                        ));
                        assert(spec_kernel_bad_from(self.kernel@, cx as int, cy as int, i as int)
                            == Some(c));
                    }
                    return Err(RulesParseError::UnknownSymbol(c));
                }
                j = j + 1;
            }
            i = i + 1;
        }
        // size the dense tables from the weight sum
        proof {
            lemma_weight_prefix_bounds(entries@, entries@.len() as int);
        }
        let ne = entries.len();
        let mut total: u64 = 0;
        let mut k: usize = 0;
        while k < ne
            invariant
                ne == entries@.len(),
                k <= ne,
                total == weight_prefix(entries@, k as int),
                forall|k2: int| 0 <= k2 < entries@.len() ==> entry_ok(#[trigger] entries@[k2]),
                entries@.len() <= 0x100_0000,
                total <= 9 * k,
            decreases ne - k,
        {
            proof {
                lemma_weight_prefix_bounds(entries@, k as int + 1);
            }
            total = total + (entries[k].1 as u64);
            k = k + 1;
        }
        let table_len: usize = (total as usize) + 1;
        let spawn = Self::apply_table(&self.spawn, table_len);
        let spawn = match spawn {
            Ok(t) => t,
            Err(key) => {
                return Err(RulesParseError::WeightOutOfBounds(key));
            },
        };
        let keep = Self::apply_table(&self.keep, table_len);
        let keep = match keep {
            Ok(t) => t,
            Err(key) => {
                return Err(RulesParseError::WeightOutOfBounds(key));
            },
        };
        Ok(Rules { kernel: entries, spawn, keep })
    }

    /// Build a dense zeroed table of length `len` and write the keyed
    /// entries into it, in order; report the first key that does not fit.
    fn apply_table(t: &ProbabilityTable, len: usize) -> (r: Result<Vec<Probability>, Weight>)
        requires
            len >= 1,
        ensures
            match r {
                Ok(dense) => {
                    &&& spec_first_bad_key(t@, len as int, 0) is None
                    &&& dense@ == spec_apply_table(zero_probs(len as int), t@, t@.len() as int)
                    &&& dense@.len() == len
                },
                Err(key) => spec_first_bad_key(t@, len as int, 0) == Some(key),
            },
    {
        let mut dense: Vec<Probability> = Vec::new();
        let mut i: usize = 0;
        while i < len
            invariant
                i <= len,
                dense@ =~= zero_probs(i as int),
            decreases len - i,
        {
            dense.push(0u32);
            i = i + 1;
        }
        let n = t.len();
        let mut k: usize = 0;
        while k < n
            invariant
                n == t@.len(),
                k <= n,
                dense@.len() == len,
                dense@ == spec_apply_table(zero_probs(len as int), t@, k as int),
                spec_first_bad_key(t@, len as int, 0) == spec_first_bad_key(
                    t@,
                    len as int,
                    k as int,
                ),
            decreases n - k,
        {
            let (key, val) = t[k];
            if key as usize >= len {
                return Err(key);
            }
            dense.set(key as usize, val);
            k = k + 1;
        }
        Ok(dense)
    }

    /// Write dense rules back into their human form: the kernel drawn over
    /// its bounding box with the center marked, and the tables keyed by
    /// every nonzero score.
    pub fn unparse(rules: &Rules) -> (hr: HumanRules)
        requires
            rules.wf(),
        ensures
            spec_unparses_to(*rules, hr),
    {
        let n = rules.kernel.len();
        let mut xmin: i32 = 0;
        let mut xmax: i32 = 0;
        let mut ymin: i32 = 0;
        let mut ymax: i32 = 0;
        let mut k: usize = 0;
        while k < n
            invariant
                rules.wf(),
                n == rules.spec_kernel().len(),
                k <= n,
                xmin == spec_xmin(rules.spec_kernel(), k as int),
                xmax == spec_xmax(rules.spec_kernel(), k as int),
                ymin == spec_ymin(rules.spec_kernel(), k as int),
                ymax == spec_ymax(rules.spec_kernel(), k as int),
                -0x4000 <= xmin <= 0,
                0 <= xmax <= 0x4000,
                -0x4000 <= ymin <= 0,
                0 <= ymax <= 0x4000,
                forall|k2: int|
                    0 <= k2 < k ==> xmin <= (#[trigger] rules.spec_kernel()[k2]).0.x <= xmax
                        && ymin <= rules.spec_kernel()[k2].0.y <= ymax,
            decreases n - k,
        {
            let (off, _w) = rules.kernel[k];
            if off.x < xmin {
                xmin = off.x;
            }
            if off.x > xmax {
                xmax = off.x;
            }
            if off.y < ymin {
                ymin = off.y;
            }
            if off.y > ymax {
                ymax = off.y;
            }
            k = k + 1;
        }
        let xsz: i32 = 1 + xmax - xmin;
        let ysz: i32 = 1 + ymax - ymin;
        proof {
            assert(xsz * ysz <= 0x8001 * 0x8001) by (nonlinear_arith)
                requires
                    0 < xsz <= 0x8001,
                    0 < ysz <= 0x8001,
            {}
            assert(0 < xsz * ysz) by (nonlinear_arith)
                requires
                    0 < xsz,
                    0 < ysz,
            {}
        }
        let area: usize = (xsz as usize) * (ysz as usize);
        let mut proto: Vec<char> = Vec::new();
        let mut p: usize = 0;
        while p < area
            invariant
                p <= area,
                proto@.len() == p,
                forall|q: int| 0 <= q < p ==> proto@[q] == ' ',
            decreases area - p,
        {
            proto.push(' ');
            p = p + 1;
        }
        proof {
            assert((-ymin) * xsz + (-xmin) < ysz * xsz && ysz * xsz == xsz * ysz)
                by (nonlinear_arith)
                requires
                    0 <= -ymin < ysz,
                    0 <= -xmin < xsz,
                    0 < xsz,
                    0 < ysz,
            {}
            assert(0 <= (-ymin) * xsz) by (nonlinear_arith)
                requires
                    0 <= -ymin,
                    0 < xsz,
            {}
        }
        let center_idx: usize = ((-ymin) as usize) * (xsz as usize) + ((-xmin) as usize);
        proto.set(center_idx, 'X');
        proof {
            assert(proto@ =~= spec_proto_base(
                xmin as int,
                ymin as int,
                xsz as int,
                ysz as int,
            ));
        }
        let mut k: usize = 0;
        while k < n
            invariant
                rules.wf(),
                n == rules.spec_kernel().len(),
                k <= n,
                xmin == spec_xmin(rules.spec_kernel(), n as int),
                xmax == spec_xmax(rules.spec_kernel(), n as int),
                ymin == spec_ymin(rules.spec_kernel(), n as int),
                ymax == spec_ymax(rules.spec_kernel(), n as int),
                -0x4000 <= xmin <= 0,
                0 <= xmax <= 0x4000,
                -0x4000 <= ymin <= 0,
                0 <= ymax <= 0x4000,
                xsz == 1 + xmax - xmin,
                ysz == 1 + ymax - ymin,
                area == xsz * ysz,
                forall|k2: int|
                    0 <= k2 < n ==> xmin <= (#[trigger] rules.spec_kernel()[k2]).0.x <= xmax
                        && ymin <= rules.spec_kernel()[k2].0.y <= ymax,
                proto@.len() == area,
                proto@ == spec_proto(
                    rules.spec_kernel(),
                    xmin as int,
                    ymin as int,
                    xsz as int,
                    ysz as int,
                    k as int,
                ),
            decreases n - k,
        {
            let (off, w) = rules.kernel[k];
            proof {
                assert((off.y - ymin) * xsz + (off.x - xmin) < ysz * xsz && ysz * xsz == xsz
                    * ysz) by (nonlinear_arith)
                    requires
                        0 <= off.y - ymin < ysz,
                        0 <= off.x - xmin < xsz,
                        0 < xsz,
                        0 < ysz,
                {}
                assert(0 <= (off.y - ymin) * xsz) by (nonlinear_arith)
                    requires
                        0 <= off.y - ymin,
                        0 < xsz,
                {}
            }
            let idx: usize = ((off.y - ymin) as usize) * (xsz as usize) + ((off.x - xmin)
                as usize);
            proto.set(idx, ((48 + w) as u8) as char);
            k = k + 1;
        }
        let mut lines: Vec<String> = Vec::new();
        let mut r: usize = 0;
        while r < ysz as usize
            invariant
                r <= ysz as usize,
                proto@.len() == area,
                area == xsz * ysz,
                0 < xsz,
                0 < ysz,
                lines@.len() == r,
                forall|r2: int| 0 <= r2 < r ==> (#[trigger] lines@[r2]@).len() == xsz,
                forall|r2: int, j: int|
                    0 <= r2 < r && 0 <= j < xsz ==> (#[trigger] lines@[r2]@[j]) == proto@[r2 * xsz
                        + j],
            decreases ysz as usize - r,
        {
            let mut s = String::new();
            let mut j: usize = 0;
            proof {
                assert((r as int + 1) * xsz <= ysz * xsz && ysz * xsz == xsz * ysz
                    && 0 <= r * xsz == (r as int) * (xsz as int)) by (nonlinear_arith)
                    requires
                        0 <= r as int,
                        r as int + 1 <= ysz as int,
                        0 < xsz,
                        0 < ysz,
                {}
            }
            while j < xsz as usize
                invariant
                    r < ysz as usize,
                    proto@.len() == area,
                    area == xsz * ysz,
                    0 < xsz,
                    0 < ysz,
                    (r as int + 1) * xsz <= area,
                    j <= xsz as usize,
                    s@.len() == j,
                    forall|j2: int| 0 <= j2 < j ==> (#[trigger] s@[j2]) == proto@[r * xsz + j2],
                decreases xsz as usize - j,
            {
                proof {
                    assert(0 <= (r as int) * (xsz as int) + (j as int) < area as int)
                        by (nonlinear_arith)
                        requires
                            0 <= r as int,
                            0 <= j as int,
                            (j as int) < xsz as int,
                            (r as int + 1) * (xsz as int) <= area as int,
                            0 < xsz as int,
                    {}
                }
                let c = proto[r * (xsz as usize) + j];
                push_char(&mut s, c);
                j = j + 1;
            }
            lines.push(s);
            r = r + 1;
        }
        let table_len = rules.spawn.len();
        proof {
            lemma_weight_prefix_bounds(rules.spec_kernel(), rules.spec_kernel().len() as int);
        }
        let mut spawn_t: ProbabilityTable = Vec::new();
        let mut w: usize = 1;
        while w < table_len
            invariant
                rules.wf(),
                table_len == rules.spec_spawn().len(),
                table_len == rules.spec_total() + 1,
                1 <= w <= table_len,
                spawn_t@.len() == w - 1,
                forall|i: int|
                    0 <= i < w - 1 ==> (#[trigger] spawn_t@[i]) == (
                    ((i + 1) as Weight),
                    rules.spec_spawn()[i + 1],
                    ),
            decreases table_len - w,
        {
            spawn_t.push((w as Weight, rules.spawn[w]));
            w = w + 1;
        }
        let mut keep_t: ProbabilityTable = Vec::new();
        let mut w: usize = 1;
        while w < table_len
            invariant
                rules.wf(),
                table_len == rules.spec_keep().len(),
                table_len == rules.spec_total() + 1,
                1 <= w <= table_len,
                keep_t@.len() == w - 1,
                forall|i: int|
                    0 <= i < w - 1 ==> (#[trigger] keep_t@[i]) == (
                    ((i + 1) as Weight),
                    rules.spec_keep()[i + 1],
                    ),
            decreases table_len - w,
        {
            keep_t.push((w as Weight, rules.keep[w]));
            w = w + 1;
        }
        proof {
            let total = rules.spec_total();
            assert(spawn_t@ =~= Seq::new(
                total as nat,
                |i: int| (((i + 1) as Weight), rules.spec_spawn()[i + 1]),
            ));
            assert(keep_t@ =~= Seq::new(
                total as nat,
                |i: int| (((i + 1) as Weight), rules.spec_keep()[i + 1]),
            ));
        }
        HumanRules { kernel: lines, spawn: spawn_t, keep: keep_t }
    }
}

/// Smallest x offset among the first `k` kernel entries (0 for none).
pub open spec fn spec_xmin(ker: Seq<(Coordinates, Weight)>, k: int) -> int
    decreases k,
{
    if k <= 0 {
        0
    } else {
        let m = spec_xmin(ker, k - 1);
        if ker[k - 1].0.x < m {
            ker[k - 1].0.x as int
        } else {
            m
        }
    }
}

/// Largest x offset among the first `k` kernel entries (0 for none).
pub open spec fn spec_xmax(ker: Seq<(Coordinates, Weight)>, k: int) -> int
    decreases k,
{
    if k <= 0 {
        0
    } else {
        let m = spec_xmax(ker, k - 1);
        if ker[k - 1].0.x > m {
            ker[k - 1].0.x as int
        } else {
            m
        }
    }
}

/// Smallest y offset among the first `k` kernel entries (0 for none).
pub open spec fn spec_ymin(ker: Seq<(Coordinates, Weight)>, k: int) -> int
    decreases k,
{
    if k <= 0 {
        0
    } else {
        let m = spec_ymin(ker, k - 1);
        if ker[k - 1].0.y < m {
            ker[k - 1].0.y as int
        } else {
            m
        }
    }
}

/// Largest y offset among the first `k` kernel entries (0 for none).
pub open spec fn spec_ymax(ker: Seq<(Coordinates, Weight)>, k: int) -> int
    decreases k,
{
    if k <= 0 {
        0
    } else {
        let m = spec_ymax(ker, k - 1);
        if ker[k - 1].0.y > m {
            ker[k - 1].0.y as int
        } else {
            m
        }
    }
}

/// The empty kernel diagram: spaces with the center marked.
pub open spec fn spec_proto_base(xmin: int, ymin: int, xsz: int, ysz: int) -> Seq<char> {
    Seq::new(
        (xsz * ysz) as nat,
        |p: int|
            if p == (-ymin) * xsz + (-xmin) {
                'X'
            } else {
                ' '
            },
    )
}

/// The kernel diagram after drawing the first `k` entries as digits.
pub open spec fn spec_proto(
    ker: Seq<(Coordinates, Weight)>,
    xmin: int,
    ymin: int,
    xsz: int,
    ysz: int,
    k: int,
) -> Seq<char>
    decreases k,
{
    if k <= 0 {
        spec_proto_base(xmin, ymin, xsz, ysz)
    } else {
        spec_proto(ker, xmin, ymin, xsz, ysz, k - 1).update(
            (ker[k - 1].0.y - ymin) * xsz + ker[k - 1].0.x - xmin,
            ((48 + ker[k - 1].1) as u8) as char,
        )
    }
}

/// `hr` is exactly the human form that writing `rules` back yields: the
/// kernel drawn over its offset bounding box and the tables keyed by
/// every nonzero score.
pub open spec fn spec_unparses_to(rules: Rules, hr: HumanRules) -> bool {
    let ker = rules.spec_kernel();
    let n = ker.len() as int;
    let xmin = spec_xmin(ker, n);
    let ymin = spec_ymin(ker, n);
    let xsz = 1 + spec_xmax(ker, n) - xmin;
    let ysz = 1 + spec_ymax(ker, n) - ymin;
    let proto = spec_proto(ker, xmin, ymin, xsz, ysz, n);
    let total = rules.spec_total();
    &&& hr.kernel@.len() == ysz
    &&& forall|r: int| 0 <= r < ysz ==> (#[trigger] hr.kernel@[r]@).len() == xsz
    &&& forall|r: int, j: int|
        0 <= r < ysz && 0 <= j < xsz ==> (#[trigger] hr.kernel@[r]@[j]) == proto[r * xsz + j]
    &&& hr.spawn@ == Seq::new(total as nat, |i: int| (((i + 1) as Weight), rules.spec_spawn()[i + 1]))
    &&& hr.keep@ == Seq::new(total as nat, |i: int| (((i + 1) as Weight), rules.spec_keep()[i + 1]))
}

/// `a` and `b` hold the same human-readable rules, compared by content.
pub open spec fn human_rules_eq(a: HumanRules, b: HumanRules) -> bool {
    &&& a.kernel@.len() == b.kernel@.len()
    &&& forall|i: int| 0 <= i < a.kernel@.len() ==> (#[trigger] a.kernel@[i])@ == b.kernel@[i]@
    &&& a.spawn@ == b.spawn@
    &&& a.keep@ == b.keep@
}

impl Clone for HumanRules {
    fn clone(&self) -> (r: Self)
        ensures
            human_rules_eq(*self, r),
    {
        let mut kernel: Vec<String> = Vec::new();
        let nk = self.kernel.len();
        let mut i: usize = 0;
        while i < nk
            invariant
                nk == self.kernel@.len(),
                i <= nk,
                kernel@.len() == i,
                forall|j: int| 0 <= j < i ==> (#[trigger] kernel@[j])@ == self.kernel@[j]@,
            decreases nk - i,
        {
            kernel.push(self.kernel[i].clone());
            i = i + 1;
        }
        let mut spawn: ProbabilityTable = Vec::new();
        let ns = self.spawn.len();
        let mut i: usize = 0;
        while i < ns
            invariant
                ns == self.spawn@.len(),
                i <= ns,
                spawn@ =~= self.spawn@.subrange(0, i as int),
            decreases ns - i,
        {
            spawn.push(self.spawn[i]);
            i = i + 1;
        }
        let mut keep: ProbabilityTable = Vec::new();
        let np = self.keep.len();
        let mut i: usize = 0;
        while i < np
            invariant
                np == self.keep@.len(),
                i <= np,
                keep@ =~= self.keep@.subrange(0, i as int),
            decreases np - i,
        {
            keep.push(self.keep[i]);
            i = i + 1;
        }
        proof {
            assert(spawn@ =~= self.spawn@);
            assert(keep@ =~= self.keep@);
        }
        HumanRules { kernel, spawn, keep }
    }
}

} // verus!
