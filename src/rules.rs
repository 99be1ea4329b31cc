//! An ordered table of rules mapping a neighborhood pattern to a next state.
use vstd::prelude::*;

verus! {

/// The output of the first rule, in table order, whose pattern equals `n`.
pub open spec fn first_match(table: Seq<(Seq<u32>, u32)>, n: Seq<u32>) -> Option<u32>
    decreases table.len(),
{
    if table.len() == 0 {
        None
    } else if table[0].0 == n {
        Some(table[0].1)
    } else {
        first_match(table.drop_first(), n)
    }
}

/// The earliest rule whose pattern equals a neighborhood decides its output:
/// any later rule with the same pattern, whatever its output, is shadowed.
pub proof fn lemma_earliest_rule_wins(table: Seq<(Seq<u32>, u32)>, i: int)
    requires
        0 <= i < table.len(),
        forall|j: int| 0 <= j < i ==> #[trigger] table[j].0 != table[i].0,
    ensures
        first_match(table, table[i].0) == Some(table[i].1),
    decreases i,
{
    if i > 0 {
        let rest = table.drop_first();
        assert(table[0].0 != table[i].0);
        assert(rest[i - 1] == table[i]);
        assert forall|j: int| 0 <= j < i - 1 implies #[trigger] rest[j].0 != rest[i - 1].0 by {
            assert(rest[j] == table[j + 1]);
        }
        lemma_earliest_rule_wins(rest, i - 1);
    }
}

/// One entry of a rule table: a pattern of expected neighbor values and the
/// state it produces.
pub struct Rule {
    pattern: Vec<u32>,
    output: u32,
}

impl View for Rule {
    type V = (Seq<u32>, u32);

    closed spec fn view(&self) -> (Seq<u32>, u32) {
        (self.pattern@, self.output)
    }
}

impl Rule {
    pub fn new(pattern: Vec<u32>, output: u32) -> (r: Rule)
        ensures
            r@ == (pattern@, output),
    {
        Rule { pattern, output }
    }
}

fn same_values(a: &Vec<u32>, b: &[u32]) -> (r: bool)
    ensures
        r == (a@ == b@),
{
    if a.len() != b.len() {
        return false;
    }
    let mut k: usize = 0;
    while k < a.len()
        invariant
            k <= a@.len(),
            a@.len() == b@.len(),
            forall|i: int| 0 <= i < k ==> a@[i] == b@[i],
        decreases a@.len() - k,
    {
        if a[k] != b[k] {
            return false;
        }
        k += 1;
    }
    assert(a@ =~= b@);
    true
}

/// An ordered list of rules; the first one that matches wins.
pub struct Rules {
    rules: Vec<Rule>,
}

impl View for Rules {
    type V = Seq<(Seq<u32>, u32)>;

    closed spec fn view(&self) -> Seq<(Seq<u32>, u32)> {
        self.rules@.map_values(|r: Rule| r@)
    }
}

impl Rules {
    pub fn new(rules: Vec<Rule>) -> (r: Rules)
        ensures
            r@ == rules@.map_values(|r: Rule| r@),
    {
        Rules { rules }
    }

    /// The output of the first rule whose pattern equals `neighborhood`, or
    /// `None` when no pattern does.
    pub fn apply(&self, neighborhood: &[u32]) -> (r: Option<u32>)
        ensures
            r == first_match(self@, neighborhood@),
    {
        let ghost n = neighborhood@;
        let mut i: usize = 0;
        assert(self@.skip(0) =~= self@);
        while i < self.rules.len()
            invariant
                i <= self.rules@.len(),
                self@.len() == self.rules@.len(),
                n == neighborhood@,
                first_match(self@, n) == first_match(self@.skip(i as int), n),
            decreases self.rules@.len() - i,
        {
            let rule = &self.rules[i];
            assert(self@.skip(i as int)[0] == rule@);
            if same_values(&rule.pattern, neighborhood) {
                return Some(rule.output);
            }
            assert(self@.skip(i as int).drop_first() =~= self@.skip(i + 1));
            i += 1;
        }
        None
    }
}

} // verus!
