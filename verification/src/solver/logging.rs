//! Decision samples and their CSV lines.

use vstd::prelude::*;
use vstd::string::StringExecFns;

use crate::cnf::Var;
use crate::parser::dimacs::{all_digits, digits_value, is_digit};
use crate::solver::features::FeatureVector;

verus! {

/// One candidate at a decision: the chosen variable has label 1, the
/// runner-ups label 0.
#[derive(Clone, Copy, Debug)]
pub struct DecisionSample {
    pub label: u8,
    pub var: Var,
    pub value: bool,
    pub features: FeatureVector,
}

/// The samples logged at one decision.
#[derive(Clone, Debug)]
pub struct DecisionGroup {
    pub decision_id: u32,
    pub samples: Vec<DecisionSample>,
}

/// The content of a decision group.
pub open spec fn group_view(g: DecisionGroup) -> (u32, Seq<DecisionSample>) {
    (g.decision_id, g.samples@)
}

/// The contents of a sequence of decision groups.
pub open spec fn groups_view(gs: Seq<DecisionGroup>) -> Seq<(u32, Seq<DecisionSample>)> {
    gs.map_values(|g: DecisionGroup| group_view(g))
}

/// The samples of a group lead with the chosen decision, labelled 1, and
/// hold at most three runner-ups after it, labelled 0; all are on distinct
/// variables in `1..=n`.
pub open spec fn leads_with_choice(samples: Seq<DecisionSample>, n: u32) -> bool {
    &&& 1 <= samples.len() <= 4
    &&& samples[0].label == 1
    &&& forall|t: int| 1 <= t < samples.len() ==> (#[trigger] samples[t]).label == 0
    &&& forall|t: int| 0 <= t < samples.len() ==> 1 <= (#[trigger] samples[t]).var.0 <= n
    &&& forall|t: int, u: int| 0 <= t < u < samples.len() ==> (#[trigger] samples[t]).var != (#[trigger] samples[u]).var
}

/// Whether some sample of `samples` is on `v`.
pub fn has_sample_on(samples: &Vec<DecisionSample>, v: Var) -> (r: bool)
    ensures
        r == exists|t: int| 0 <= t < samples@.len() && (#[trigger] samples@[t]).var == v,
{
    let mut t: usize = 0;
    while t < samples.len()
        invariant
            t <= samples@.len(),
            forall|u: int| 0 <= u < t ==> (#[trigger] samples@[u]).var != v,
        decreases samples@.len() - t,
    {
        if samples[t].var == v {
            return true;
        }
        t = t + 1;
    }
    false
}

/// Every group of a log leads with its chosen decision, as
/// `leads_with_choice` says.
pub open spec fn log_leads_with_choices(gv: Seq<(u32, Seq<DecisionSample>)>, n: u32) -> bool {
    forall|k: int| 0 <= k < gv.len() ==> #[trigger] leads_with_choice(gv[k].1, n)
}

/// From group `from` on, each group of the log leads with a decision that
/// the assignment `m` agrees with.
pub open spec fn decisions_agree(gv: Seq<(u32, Seq<DecisionSample>)>, from: int, m: Seq<Option<bool>>) -> bool {
    forall|k: int| from <= k < gv.len() ==> {
        let s = #[trigger] gv[k].1;
        s.len() >= 1 && m[s[0].var.slot()] == Some(s[0].value)
    }
}

/// The first sample labelled 1 at or after position `i`, as a decision.
pub open spec fn chosen_from(samples: Seq<DecisionSample>, i: int) -> Option<(Var, bool)>
    decreases samples.len() - i,
{
    if i < 0 || i >= samples.len() {
        None
    } else if samples[i].label == 1 {
        Some((samples[i].var, samples[i].value))
    } else {
        chosen_from(samples, i + 1)
    }
}

/// The decision a group records as made: its first sample labelled 1.
pub open spec fn chosen_of(samples: Seq<DecisionSample>) -> Option<(Var, bool)> {
    chosen_from(samples, 0)
}

/// The decision made at each group of a log, or `None` when some group
/// records none.
pub open spec fn chosen_path(gv: Seq<(u32, Seq<DecisionSample>)>) -> Option<Seq<(Var, bool)>> {
    if forall|k: int| 0 <= k < gv.len() ==> (#[trigger] chosen_of(gv[k].1)) is Some {
        Some(Seq::new(gv.len(), |k: int| chosen_of(gv[k].1)->0))
    } else {
        None
    }
}

/// A log whose groups lead with their chosen decisions records a decision
/// at every group: the leading one, on a variable in `1..=n`.
pub proof fn lemma_leading_log_has_path(gv: Seq<(u32, Seq<DecisionSample>)>, n: u32)
    requires
        log_leads_with_choices(gv, n),
    ensures
        chosen_path(gv) matches Some(p) && p.len() == gv.len() && forall|k: int|
            #![trigger p[k]]
            0 <= k < p.len() ==> p[k] == (gv[k].1[0].var, gv[k].1[0].value) && 1 <= p[k].0.0 <= n,
{
    assert forall|k: int| 0 <= k < gv.len() implies (#[trigger] chosen_of(gv[k].1)) == Some(
        (gv[k].1[0].var, gv[k].1[0].value),
    ) by {
        assert(leads_with_choice(gv[k].1, n));
    }
    let p = Seq::new(gv.len(), |k: int| chosen_of(gv[k].1)->0);
    assert(chosen_path(gv) == Some(p));
    assert forall|k: int| 0 <= k < p.len() implies p[k] == (gv[k].1[0].var, gv[k].1[0].value) && 1 <= p[k].0.0 <= n by {
        assert(chosen_of(gv[k].1) == Some((gv[k].1[0].var, gv[k].1[0].value)));
        assert(leads_with_choice(gv[k].1, n));
    }
}

/// The decision recorded by `samples`: its first sample labelled 1.
pub fn chosen_sample(samples: &Vec<DecisionSample>) -> (r: Option<(Var, bool)>)
    ensures
        r == chosen_of(samples@),
{
    let mut i: usize = 0;
    while i < samples.len()
        invariant
            i <= samples@.len(),
            chosen_from(samples@, i as int) == chosen_of(samples@),
        decreases samples@.len() - i,
    {
        if samples[i].label == 1 {
            return Some((samples[i].var, samples[i].value));
        }
        i = i + 1;
    }
    None
}

/// The decision recorded by each group of `groups`, in order; `None` when
/// some group records none.
pub fn chosen_decisions(groups: &Vec<DecisionGroup>) -> (r: Option<Vec<(Var, bool)>>)
    ensures
        r is None <==> chosen_path(groups_view(groups@)) is None,
        r matches Some(p) ==> chosen_path(groups_view(groups@)) == Some(p@),
{
    let ghost gv = groups_view(groups@);
    let mut out: Vec<(Var, bool)> = Vec::new();
    let mut i: usize = 0;
    while i < groups.len()
        invariant
            i <= groups@.len(),
            gv == groups_view(groups@),
            out@.len() == i,
            forall|k: int| 0 <= k < i ==> (#[trigger] chosen_of(gv[k].1)) == Some(out@[k]),
        decreases groups@.len() - i,
    {
        match chosen_sample(&groups[i].samples) {
            Some(c) => {
                out.push(c);
            },
            None => {
                assert(chosen_of(gv[i as int].1) is None);
                return None;
            },
        }
        i = i + 1;
    }
    assert(chosen_path(gv) == Some(out@)) by {
        assert(Seq::new(gv.len(), |k: int| chosen_of(gv[k].1)->0) =~= out@);
    }
    Some(out)
}

impl DecisionGroup {
    /// A separate copy of this group.
    pub fn duplicate(&self) -> (c: DecisionGroup)
        ensures
            group_view(c) == group_view(*self),
    {
        let mut samples: Vec<DecisionSample> = Vec::new();
        let mut i: usize = 0;
        while i < self.samples.len()
            invariant
                i <= self.samples@.len(),
                samples@ == self.samples@.take(i as int),
            decreases self.samples@.len() - i,
        {
            samples.push(self.samples[i]);
            i = i + 1;
            assert(samples@ =~= self.samples@.take(i as int));
        }
        assert(samples@ =~= self.samples@);
        DecisionGroup { decision_id: self.decision_id, samples }
    }
}

/// A separate copy of a sequence of decision groups.
pub fn duplicate_groups(gs: &Vec<DecisionGroup>) -> (c: Vec<DecisionGroup>)
    ensures
        groups_view(c@) == groups_view(gs@),
{
    let mut out: Vec<DecisionGroup> = Vec::new();
    let mut i: usize = 0;
    while i < gs.len()
        invariant
            i <= gs@.len(),
            out@.len() == i,
            forall|k: int| 0 <= k < i ==> group_view(#[trigger] out@[k]) == group_view(gs@[k]),
        decreases gs@.len() - i,
    {
        let g = gs[i].duplicate();
        out.push(g);
        i = i + 1;
    }
    assert(groups_view(out@) =~= groups_view(gs@));
    out
}

/// The decimal digits of `n`, most significant first, without leading
/// zeros ("0" for zero).
pub open spec fn decimal(n: nat) -> Seq<char>
    decreases n,
{
    if n < 10 {
        seq![digit_char(n)]
    } else {
        decimal(n / 10) + seq![digit_char(n % 10)]
    }
}

/// The character of each digit is an ASCII digit whose value is the digit.
proof fn lemma_digit_char(d: nat)
    requires
        d < 10,
    ensures
        is_digit(digit_char(d)),
        (digit_char(d) as u32) - 0x30 == d,
{
}

/// Every number written in decimal reads back as itself: its text is a run
/// of digits, with no leading zero unless the number is zero, whose value
/// is the number.
pub proof fn lemma_decimal_reads_back(n: nat)
    ensures
        all_digits(decimal(n)),
        digits_value(decimal(n)) == n,
        decimal(n)[0] == '0' ==> n == 0,
    decreases n,
{
    if n < 10 {
        lemma_digit_char(n);
        assert(decimal(n).drop_last() =~= Seq::<char>::empty());
        assert(digits_value(Seq::<char>::empty()) == 0);
        assert(digits_value(decimal(n)) == 0 * 10 + ((digit_char(n) as u32) - 0x30) as nat);
    } else {
        lemma_decimal_reads_back(n / 10);
        lemma_digit_char(n % 10);
        let d = decimal(n);
        assert(d.drop_last() =~= decimal(n / 10));
        assert(d.last() == digit_char(n % 10));
        assert(digits_value(d) == digits_value(decimal(n / 10)) * 10 + ((digit_char(n % 10) as u32) - 0x30) as nat);
        assert(n == (n / 10) * 10 + n % 10) by (nonlinear_arith);
        assert forall|i: int| 0 <= i < d.len() implies is_digit(#[trigger] d[i]) by {
            if i < d.len() - 1 {
                assert(d[i] == decimal(n / 10)[i]);
            }
        }
        assert(d[0] == decimal(n / 10)[0]);
        assert(n / 10 > 0) by (nonlinear_arith)
            requires
                n >= 10,
        ;
    }
}

/// The character of a decimal digit.
pub open spec fn digit_char(d: nat) -> char {
    if d == 0 {
        '0'
    } else if d == 1 {
        '1'
    } else if d == 2 {
        '2'
    } else if d == 3 {
        '3'
    } else if d == 4 {
        '4'
    } else if d == 5 {
        '5'
    } else if d == 6 {
        '6'
    } else if d == 7 {
        '7'
    } else if d == 8 {
        '8'
    } else {
        '9'
    }
}

/// The numbers joined in decimal with commas between them.
pub open spec fn comma_joined(fields: Seq<nat>) -> Seq<char>
    decreases fields.len(),
{
    if fields.len() == 0 {
        Seq::empty()
    } else if fields.len() == 1 {
        decimal(fields[0])
    } else {
        comma_joined(fields.drop_last()) + seq![','] + decimal(fields.last())
    }
}

/// The fields of the CSV line of `s` in the group `decision_id`, in the
/// order of the header.
pub open spec fn csv_fields(s: DecisionSample, decision_id: u32) -> Seq<nat> {
    seq![
        decision_id as nat,
        s.label as nat,
        s.var.0 as nat,
        if s.value { 1nat } else { 0nat },
        s.features.pos_len_2 as nat,
        s.features.neg_len_2 as nat,
        s.features.pos_len_3 as nat,
        s.features.neg_len_3 as nat,
        s.features.pos_len_4p as nat,
        s.features.neg_len_4p as nat,
        s.features.conflict_heat as nat,
        s.features.recent_flips as nat,
        s.features.trail_depth as nat,
        s.features.active_clause_ratio as nat,
    ]
}

fn push_digit(out: &mut String, d: u32)
    requires
        d < 10,
    ensures
        final(out)@ == old(out)@ + seq![digit_char(d as nat)],
{
    let text = if d == 0 {
        "0"
    } else if d == 1 {
        "1"
    } else if d == 2 {
        "2"
    } else if d == 3 {
        "3"
    } else if d == 4 {
        "4"
    } else if d == 5 {
        "5"
    } else if d == 6 {
        "6"
    } else if d == 7 {
        "7"
    } else if d == 8 {
        "8"
    } else {
        "9"
    };
    proof {
        reveal_strlit("0");
        reveal_strlit("1");
        reveal_strlit("2");
        reveal_strlit("3");
        reveal_strlit("4");
        reveal_strlit("5");
        reveal_strlit("6");
        reveal_strlit("7");
        reveal_strlit("8");
        reveal_strlit("9");
        assert(text@ =~= seq![digit_char(d as nat)]);
    }
    out.append(text);
}

/// Appends the decimal digits of `n`.
pub fn push_decimal(out: &mut String, n: u32)
    ensures
        final(out)@ == old(out)@ + decimal(n as nat),
    decreases n,
{
    if n >= 10 {
        push_decimal(out, n / 10);
        push_digit(out, n % 10);
        assert(final(out)@ =~= old(out)@ + decimal(n as nat));
    } else {
        push_digit(out, n);
    }
}

fn push_comma(out: &mut String)
    ensures
        final(out)@ == old(out)@ + seq![','],
{
    let text = ",";
    proof {
        reveal_strlit(",");
        assert(text@ =~= seq![',']);
    }
    out.append(text);
}

impl DecisionSample {
    /// The header line of the decision log (without line ending).
    pub fn header() -> (h: &'static str)
        ensures
            h@ == "decision_id,label,var,value,pos_len_2,neg_len_2,pos_len_3,neg_len_3,pos_len_4p,neg_len_4p,conflict_heat,recent_flips,trail_depth,active_clause_ratio"@,
            h@ == joined(csv_columns()),
    {
        proof {
            reveal_strlit("decision_id,label,var,value,pos_len_2,neg_len_2,pos_len_3,neg_len_3,pos_len_4p,neg_len_4p,conflict_heat,recent_flips,trail_depth,active_clause_ratio");
            reveal_strlit("decision_id");
            reveal_strlit("label");
            reveal_strlit("var");
            reveal_strlit("value");
            reveal_strlit("pos_len_2");
            reveal_strlit("neg_len_2");
            reveal_strlit("pos_len_3");
            reveal_strlit("neg_len_3");
            reveal_strlit("pos_len_4p");
            reveal_strlit("neg_len_4p");
            reveal_strlit("conflict_heat");
            reveal_strlit("recent_flips");
            reveal_strlit("trail_depth");
            reveal_strlit("active_clause_ratio");
            reveal_with_fuel(joined, 15);
            assert("decision_id,label,var,value,pos_len_2,neg_len_2,pos_len_3,neg_len_3,pos_len_4p,neg_len_4p,conflict_heat,recent_flips,trail_depth,active_clause_ratio"@ =~= joined(csv_columns()));
        }
        "decision_id,label,var,value,pos_len_2,neg_len_2,pos_len_3,neg_len_3,pos_len_4p,neg_len_4p,conflict_heat,recent_flips,trail_depth,active_clause_ratio"
    }

    /// The CSV line of this sample in group `decision_id`: its fields in
    /// decimal, separated by commas, ending with a line feed.
    pub fn write_csv_row(&self, decision_id: u32) -> (line: String)
        ensures
            line@ == comma_joined(csv_fields(*self, decision_id)) + seq!['\n'],
    {
        let fields: [u32; 14] = [
            decision_id,
            self.label as u32,
            self.var.0,
            if self.value { 1 } else { 0 },
            self.features.pos_len_2,
            self.features.neg_len_2,
            self.features.pos_len_3,
            self.features.neg_len_3,
            self.features.pos_len_4p,
            self.features.neg_len_4p,
            self.features.conflict_heat,
            self.features.recent_flips,
            self.features.trail_depth,
            self.features.active_clause_ratio,
        ];
        let ghost spec_fields = csv_fields(*self, decision_id);
        assert(fields@.len() == 14);
        assert(forall|k: int| 0 <= k < 14 ==> fields@[k] as nat == #[trigger] spec_fields[k]);
        let mut line = String::new();
        push_decimal(&mut line, fields[0]);
        proof {
            assert(spec_fields.take(1).drop_last() =~= Seq::<nat>::empty());
            assert(line@ =~= comma_joined(spec_fields.take(1)));
        }
        let mut k: usize = 1;
        while k < 14
            invariant
                1 <= k <= 14,
                fields@.len() == 14,
                spec_fields == csv_fields(*self, decision_id),
                forall|t: int| 0 <= t < 14 ==> fields@[t] as nat == #[trigger] spec_fields[t],
                line@ == comma_joined(spec_fields.take(k as int)),
            decreases 14 - k,
        {
            push_comma(&mut line);
            push_decimal(&mut line, fields[k]);
            proof {
                let t = spec_fields.take(k + 1);
                assert(t.drop_last() =~= spec_fields.take(k as int));
                assert(t.last() == spec_fields[k as int]);
            }
            k = k + 1;
        }
        let newline = "\n";
        proof {
            reveal_strlit("\n");
            assert(spec_fields.take(14) =~= spec_fields);
        }
        line.append(newline);
        assert(line@ =~= comma_joined(csv_fields(*self, decision_id)) + seq!['\n']);
        line
    }
}

/// Number of occurrences of `c` in `s`.
pub open spec fn occurrences(s: Seq<char>, c: char) -> nat
    decreases s.len(),
{
    if s.len() == 0 {
        0
    } else {
        occurrences(s.drop_last(), c) + if s.last() == c {
            1nat
        } else {
            0nat
        }
    }
}

/// `parts` joined with commas.
pub open spec fn joined(parts: Seq<Seq<char>>) -> Seq<char>
    decreases parts.len(),
{
    if parts.len() == 0 {
        Seq::empty()
    } else if parts.len() == 1 {
        parts[0]
    } else {
        joined(parts.drop_last()) + seq![','] + parts.last()
    }
}

/// The column names of the decision log.
pub open spec fn csv_columns() -> Seq<Seq<char>> {
    seq![
        "decision_id"@,
        "label"@,
        "var"@,
        "value"@,
        "pos_len_2"@,
        "neg_len_2"@,
        "pos_len_3"@,
        "neg_len_3"@,
        "pos_len_4p"@,
        "neg_len_4p"@,
        "conflict_heat"@,
        "recent_flips"@,
        "trail_depth"@,
        "active_clause_ratio"@,
    ]
}

/// What each column of a sample's CSV line holds, by the column's name in
/// the header: the group's decision id, the label, the variable's number,
/// 1 exactly when the sample's value is true (whatever its label) and else
/// 0, then the features in the order of the header.
pub proof fn lemma_csv_columns_hold(s: DecisionSample, decision_id: u32)
    ensures
        csv_fields(s, decision_id).len() == csv_columns().len(),
        csv_columns()[0] == "decision_id"@ && csv_fields(s, decision_id)[0] == decision_id,
        csv_columns()[1] == "label"@ && csv_fields(s, decision_id)[1] == s.label,
        csv_columns()[2] == "var"@ && csv_fields(s, decision_id)[2] == s.var.0,
        csv_columns()[3] == "value"@ && csv_fields(s, decision_id)[3] <= 1 && (csv_fields(s, decision_id)[3] == 1
            <==> s.value),
        csv_columns()[4] == "pos_len_2"@ && csv_fields(s, decision_id)[4] == s.features.pos_len_2,
        csv_columns()[5] == "neg_len_2"@ && csv_fields(s, decision_id)[5] == s.features.neg_len_2,
        csv_columns()[6] == "pos_len_3"@ && csv_fields(s, decision_id)[6] == s.features.pos_len_3,
        csv_columns()[7] == "neg_len_3"@ && csv_fields(s, decision_id)[7] == s.features.neg_len_3,
        csv_columns()[8] == "pos_len_4p"@ && csv_fields(s, decision_id)[8] == s.features.pos_len_4p,
        csv_columns()[9] == "neg_len_4p"@ && csv_fields(s, decision_id)[9] == s.features.neg_len_4p,
        csv_columns()[10] == "conflict_heat"@ && csv_fields(s, decision_id)[10] == s.features.conflict_heat,
        csv_columns()[11] == "recent_flips"@ && csv_fields(s, decision_id)[11] == s.features.recent_flips,
        csv_columns()[12] == "trail_depth"@ && csv_fields(s, decision_id)[12] == s.features.trail_depth,
        csv_columns()[13] == "active_clause_ratio"@ && csv_fields(s, decision_id)[13]
            == s.features.active_clause_ratio,
{
}

/// Two samples that differ only in their labels have CSV lines that differ
/// only in the label column.
pub proof fn lemma_csv_label_only(s: DecisionSample, t: DecisionSample, decision_id: u32)
    requires
        s.var == t.var,
        s.value == t.value,
        s.features == t.features,
    ensures
        forall|k: int|
            0 <= k < csv_fields(s, decision_id).len() && k != 1 ==> csv_fields(s, decision_id)[k] == csv_fields(
                t,
                decision_id,
            )[k],
{
    lemma_csv_columns_hold(s, decision_id);
    lemma_csv_columns_hold(t, decision_id);
}

/// `s` holds no comma.
pub open spec fn comma_free(s: Seq<char>) -> bool {
    forall|i: int| 0 <= i < s.len() ==> s[i] != ','
}

/// Counting in a concatenation adds the counts of its parts.
proof fn lemma_occurrences_concat(a: Seq<char>, b: Seq<char>, c: char)
    ensures
        occurrences(a + b, c) == occurrences(a, c) + occurrences(b, c),
    decreases b.len(),
{
    if b.len() > 0 {
        lemma_occurrences_concat(a, b.drop_last(), c);
        assert((a + b).drop_last() =~= a + b.drop_last());
    }
}

/// A comma-free text counts no comma.
proof fn lemma_comma_free_count(s: Seq<char>)
    requires
        comma_free(s),
    ensures
        occurrences(s, ',') == 0,
    decreases s.len(),
{
    if s.len() > 0 {
        lemma_comma_free_count(s.drop_last());
    }
}

/// Decimal digits hold no comma.
proof fn lemma_decimal_comma_free(n: nat)
    ensures
        comma_free(decimal(n)),
    decreases n,
{
    if n >= 10 {
        lemma_decimal_comma_free(n / 10);
    }
}

/// Joining comma-free parts with commas puts one comma between each two.
proof fn lemma_joined_commas(parts: Seq<Seq<char>>)
    requires
        parts.len() >= 1,
        forall|k: int| 0 <= k < parts.len() ==> comma_free(#[trigger] parts[k]),
    ensures
        occurrences(joined(parts), ',') == parts.len() - 1,
    decreases parts.len(),
{
    if parts.len() == 1 {
        lemma_comma_free_count(parts[0]);
    } else {
        let front = parts.drop_last();
        assert forall|k: int| 0 <= k < front.len() implies comma_free(#[trigger] front[k]) by {
            assert(front[k] == parts[k]);
        }
        lemma_joined_commas(front);
        lemma_occurrences_concat(joined(front), seq![','], ',');
        lemma_occurrences_concat(joined(front) + seq![','], parts.last(), ',');
        lemma_comma_free_count(parts.last());
        assert(occurrences(seq![','], ',') == 1) by {
            reveal_with_fuel(occurrences, 2);
            assert(seq![','].drop_last() =~= Seq::<char>::empty());
            assert(seq![','].last() == ',');
        }
    }
}

/// The fields of a line, written in decimal and joined with commas, have
/// one comma between each two.
proof fn lemma_comma_joined_commas(fields: Seq<nat>)
    requires
        fields.len() >= 1,
    ensures
        occurrences(comma_joined(fields), ',') == fields.len() - 1,
    decreases fields.len(),
{
    if fields.len() == 1 {
        lemma_decimal_comma_free(fields[0]);
        lemma_comma_free_count(decimal(fields[0]));
    } else {
        let front = fields.drop_last();
        lemma_comma_joined_commas(front);
        lemma_occurrences_concat(comma_joined(front), seq![','], ',');
        lemma_occurrences_concat(comma_joined(front) + seq![','], decimal(fields.last()), ',');
        lemma_decimal_comma_free(fields.last());
        lemma_comma_free_count(decimal(fields.last()));
        assert(occurrences(seq![','], ',') == 1) by {
            reveal_with_fuel(occurrences, 2);
            assert(seq![','].drop_last() =~= Seq::<char>::empty());
            assert(seq![','].last() == ',');
        }
    }
}

/// Every line of the decision log has one field per column of the header:
/// as many commas as the header, a comma between each two fields.
pub proof fn lemma_rows_match_header(sample: DecisionSample, decision_id: u32)
    ensures
        csv_fields(sample, decision_id).len() == csv_columns().len(),
        occurrences(comma_joined(csv_fields(sample, decision_id)), ',') == occurrences(joined(csv_columns()), ','),
        occurrences(joined(csv_columns()), ',') == csv_columns().len() - 1,
{
    let cols = csv_columns();
    reveal_strlit("decision_id");
    reveal_strlit("label");
    reveal_strlit("var");
    reveal_strlit("value");
    reveal_strlit("pos_len_2");
    reveal_strlit("neg_len_2");
    reveal_strlit("pos_len_3");
    reveal_strlit("neg_len_3");
    reveal_strlit("pos_len_4p");
    reveal_strlit("neg_len_4p");
    reveal_strlit("conflict_heat");
    reveal_strlit("recent_flips");
    reveal_strlit("trail_depth");
    reveal_strlit("active_clause_ratio");
    assert forall|k: int| 0 <= k < cols.len() implies comma_free(#[trigger] cols[k]) by {
        assert(comma_free("decision_id"@));
        assert(comma_free("label"@));
        assert(comma_free("var"@));
        assert(comma_free("value"@));
        assert(comma_free("pos_len_2"@));
        assert(comma_free("neg_len_2"@));
        assert(comma_free("pos_len_3"@));
        assert(comma_free("neg_len_3"@));
        assert(comma_free("pos_len_4p"@));
        assert(comma_free("neg_len_4p"@));
        assert(comma_free("conflict_heat"@));
        assert(comma_free("recent_flips"@));
        assert(comma_free("trail_depth"@));
        assert(comma_free("active_clause_ratio"@));
    }
    lemma_joined_commas(cols);
    lemma_comma_joined_commas(csv_fields(sample, decision_id));
}

} // verus!
