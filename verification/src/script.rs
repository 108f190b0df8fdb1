//! What a timeline script asks for during one generation.
//!
//! A script calls host functions (`setRule`, `setRuleEx`, `setPalette`); the
//! script engine hands each call here, and the last request of each kind is
//! what the generation applies.
use crate::rules::{parse_spec, Rule};
use vstd::prelude::*;

verus! {

/// A call that a script makes to the host.
#[derive(Clone, Debug)]
pub enum ScriptCall {
    /// `setRule(text)`: a rule in B/S notation.
    SetRule(String),
    /// `setRuleEx(birth, survive)`: a rule given by its two masks.
    SetRuleEx(u32, u32),
    /// `setPalette(name)`: a palette by name.
    SetPalette(String),
}

/// The rule and palette that a script asked for, if any.
#[derive(Clone, Debug)]
pub struct ScriptResult {
    pub rule: Option<Rule>,
    pub palette: Option<String>,
}

impl View for ScriptResult {
    type V = (Option<Rule>, Option<Seq<char>>);

    open spec fn view(&self) -> Self::V {
        (
            self.rule,
            match self.palette {
                Some(p) => Some(p@),
                None => None,
            },
        )
    }
}

/// The requests after one more call: a rule text that does not parse is
/// ignored; every other call replaces the request of its kind.
pub open spec fn after_call(v: (Option<Rule>, Option<Seq<char>>), call: ScriptCall) -> (
    Option<Rule>,
    Option<Seq<char>>,
) {
    match call {
        ScriptCall::SetRule(text) => match parse_spec(text@) {
            Some(r) => (Some(r), v.1),
            None => v,
        },
        ScriptCall::SetRuleEx(b, s) => (Some(Rule { birth: b, survive: s }), v.1),
        ScriptCall::SetPalette(name) => (v.0, Some(name@)),
    }
}

/// The requests after the calls `calls`, made in order from no request.
pub open spec fn after_calls(calls: Seq<ScriptCall>) -> (Option<Rule>, Option<Seq<char>>)
    decreases calls.len(),
{
    if calls.len() == 0 {
        (None, None)
    } else {
        after_call(after_calls(calls.drop_last()), calls.last())
    }
}

/// The call requests a rule: `setRuleEx`, or `setRule` with a text that reads
/// as a rule.
pub open spec fn requests_rule(c: ScriptCall) -> bool {
    match c {
        ScriptCall::SetRule(text) => parse_spec(text@) is Some,
        ScriptCall::SetRuleEx(_, _) => true,
        ScriptCall::SetPalette(_) => false,
    }
}

/// The rule that a rule-requesting call asks for.
pub open spec fn requested_rule(c: ScriptCall) -> Rule {
    match c {
        ScriptCall::SetRule(text) => parse_spec(text@).unwrap(),
        ScriptCall::SetRuleEx(b, s) => Rule { birth: b, survive: s },
        ScriptCall::SetPalette(_) => Rule { birth: 0, survive: 0 },
    }
}

/// A rule call never touches the palette request, and a palette call never
/// touches the rule request.
pub proof fn lemma_requests_independent(v: (Option<Rule>, Option<Seq<char>>), c: ScriptCall)
    ensures
        !(c is SetPalette) ==> after_call(v, c).1 == v.1,
        c is SetPalette ==> after_call(v, c).0 == v.0,
        requests_rule(c) ==> after_call(v, c).0 == Some(requested_rule(c)),
        !(c is SetPalette) && !requests_rule(c) ==> after_call(v, c) == v,
{
}

/// After a generation's calls, the palette request is the name of the last
/// `setPalette` call, and there is none when no such call was made.
pub proof fn lemma_last_palette_wins(calls: Seq<ScriptCall>)
    ensures
        after_calls(calls).1 is None <==> forall|j: int| 0 <= j < calls.len() ==> !(#[trigger] calls[j] is SetPalette),
        after_calls(calls).1 is Some ==> exists|j: int|
            0 <= j < calls.len() && (#[trigger] calls[j] matches ScriptCall::SetPalette(name) && Some(name@) == after_calls(calls).1)
                && forall|k: int| j < k < calls.len() ==> !(#[trigger] calls[k] is SetPalette),
    decreases calls.len(),
{
    if calls.len() > 0 {
        let init = calls.drop_last();
        let n = calls.len() - 1;
        lemma_last_palette_wins(init);
        if calls[n] is SetPalette {
            assert(calls[n] is SetPalette);
        } else {
            if after_calls(init).1 is Some {
                let j = choose|j: int|
                    0 <= j < init.len() && (#[trigger] init[j] matches ScriptCall::SetPalette(name) && Some(name@) == after_calls(init).1)
                        && forall|k: int| j < k < init.len() ==> !(#[trigger] init[k] is SetPalette);
                assert(calls[j] == init[j]);
                assert forall|k: int| j < k < calls.len() implies !(#[trigger] calls[k] is SetPalette) by {
                    if k < n {
                        assert(calls[k] == init[k]);
                    }
                }
            } else {
                assert forall|j: int| 0 <= j < calls.len() implies !(#[trigger] calls[j] is SetPalette) by {
                    if j < n {
                        assert(calls[j] == init[j]);
                    }
                }
            }
            if forall|j: int| 0 <= j < calls.len() ==> !(#[trigger] calls[j] is SetPalette) {
                assert forall|j: int| 0 <= j < init.len() implies !(#[trigger] init[j] is SetPalette) by {
                    assert(calls[j] == init[j]);
                }
            }
        }
    }
}

/// After a generation's calls, the rule request is the rule of the last call
/// that requests one, and there is none when no call did.
pub proof fn lemma_last_rule_wins(calls: Seq<ScriptCall>)
    ensures
        after_calls(calls).0 is None <==> forall|j: int| 0 <= j < calls.len() ==> !requests_rule(#[trigger] calls[j]),
        after_calls(calls).0 is Some ==> exists|j: int|
            0 <= j < calls.len() && requests_rule(#[trigger] calls[j]) && after_calls(calls).0 == Some(requested_rule(calls[j]))
                && forall|k: int| j < k < calls.len() ==> !requests_rule(#[trigger] calls[k]),
    decreases calls.len(),
{
    if calls.len() > 0 {
        let init = calls.drop_last();
        let n = calls.len() - 1;
        lemma_last_rule_wins(init);
        lemma_requests_independent(after_calls(init), calls[n]);
        if requests_rule(calls[n]) {
            assert(requests_rule(calls[n]));
        } else {
            if after_calls(init).0 is Some {
                let j = choose|j: int|
                    0 <= j < init.len() && requests_rule(#[trigger] init[j]) && after_calls(init).0 == Some(requested_rule(init[j]))
                        && forall|k: int| j < k < init.len() ==> !requests_rule(#[trigger] init[k]);
                assert(calls[j] == init[j]);
                assert forall|k: int| j < k < calls.len() implies !requests_rule(#[trigger] calls[k]) by {
                    if k < n {
                        assert(calls[k] == init[k]);
                    }
                }
            } else {
                assert forall|j: int| 0 <= j < calls.len() implies !requests_rule(#[trigger] calls[j]) by {
                    if j < n {
                        assert(calls[j] == init[j]);
                    }
                }
            }
            if forall|j: int| 0 <= j < calls.len() ==> !requests_rule(#[trigger] calls[j]) {
                assert forall|j: int| 0 <= j < init.len() implies !requests_rule(#[trigger] init[j]) by {
                    assert(calls[j] == init[j]);
                }
            }
        }
    }
}

impl Default for ScriptResult {
    /// No request.
    fn default() -> (r: Self)
        ensures
            r@ == (None::<Rule>, None::<Seq<char>>),
    {
        ScriptResult { rule: None, palette: None }
    }
}

impl ScriptResult {
    /// Takes one call of the script into account.
    pub fn record(&mut self, call: ScriptCall)
        ensures
            final(self)@ == after_call(old(self)@, call),
    {
        match call {
            ScriptCall::SetRule(text) => {
                if let Some(r) = Rule::parse(text.as_str()) {
                    self.rule = Some(r);
                }
            },
            ScriptCall::SetRuleEx(b, s) => {
                self.rule = Some(Rule::new(b, s));
            },
            ScriptCall::SetPalette(name) => {
                self.palette = Some(name);
            },
        }
    }

    /// The requests that a generation's calls make, in the order made.
    pub fn from_calls(calls: Vec<ScriptCall>) -> (r: Self)
        ensures
            r@ == after_calls(calls@),
    {
        let mut r = ScriptResult { rule: None, palette: None };
        let ghost all = calls@;
        for c in it: calls
            invariant
                all == it.seq(),
                r@ == after_calls(all.take(it.index() as int)),
        {
            assert(all.take(it.index() + 1).drop_last() == all.take(it.index() as int));
            r.record(c);
        }
        assert(all.take(all.len() as int) == all);
        r
    }
}

} // verus!
