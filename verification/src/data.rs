//! Plain data carried through the synchronization pipeline: blueprint
//! payloads, output components, and the derivation that turns a payload
//! (plus injected parameters) into a bundle of output components.

use vstd::prelude::*;

verus! {

/// A blueprint payload: a type tag plus two scalar data fields. Payload
/// values are pure data; the engine never interprets them except through a
/// registered derivation.
#[derive(Clone, Copy, Debug, PartialEq, Eq, Structural)]
pub struct Payload {
    pub ty: u64,
    pub x: u32,
    pub y: u32,
}

impl Payload {
    pub fn new(ty: u64, x: u32, y: u32) -> (p: Payload)
        ensures
            p == (Payload { ty, x, y }),
    {
        Payload { ty, x, y }
    }

    /// The default payload value of a given payload type: both data fields
    /// zero (blueprint payloads are default-constructible).
    pub fn default_of(ty: u64) -> (p: Payload)
        ensures
            p == (Payload { ty, x: 0u32, y: 0u32 }),
    {
        Payload { ty, x: 0, y: 0 }
    }
}

/// One output component: a component type tag plus two scalar values. An
/// entity holds at most one component per type.
#[derive(Clone, Copy, Debug, PartialEq, Eq, Structural)]
pub struct Component {
    pub ty: u64,
    pub x: u64,
    pub y: u64,
}

/// How one scalar of an output component is computed from the payload and
/// the world's injected parameters.
#[derive(Clone, Copy, Debug, PartialEq, Eq, Structural)]
pub enum Expr {
    /// A fixed value.
    Const(u64),
    /// The payload's first data field.
    PayloadX,
    /// The payload's second data field.
    PayloadY,
    /// The product of the payload's two data fields.
    Product,
    /// The injected parameter at this index, if present.
    Param(usize),
}

/// One rule of a derivation: produce a component of type `ty` whose scalars
/// are computed by the two expressions.
#[derive(Clone, Copy, Debug, PartialEq, Eq, Structural)]
pub struct ComponentRule {
    pub ty: u64,
    pub x: Expr,
    pub y: Expr,
}

/// A derivation: the pure transform from a blueprint payload (plus
/// parameters) to an output bundle, given as a list of component rules.
#[derive(Debug)]
pub struct Derivation {
    pub rules: Vec<ComponentRule>,
}

impl View for Derivation {
    type V = Seq<ComponentRule>;

    open spec fn view(&self) -> Seq<ComponentRule> {
        self.rules@
    }
}

/// The value of one expression, or `None` when it reads a missing parameter.
pub open spec fn eval_spec(e: Expr, p: Payload, params: Seq<u64>) -> Option<u64> {
    match e {
        Expr::Const(c) => Some(c),
        Expr::PayloadX => Some(p.x as u64),
        Expr::PayloadY => Some(p.y as u64),
        Expr::Product => Some((p.x * p.y) as u64),
        Expr::Param(i) => if i < params.len() {
            Some(params[i as int])
        } else {
            None
        },
    }
}

/// The value of an expression with missing parameters reading as zero; only
/// used where `eval_spec` is known to be `Some`.
pub open spec fn eval_val(e: Expr, p: Payload, params: Seq<u64>) -> u64 {
    match eval_spec(e, p, params) {
        Some(v) => v,
        None => 0,
    }
}

/// Whether every rule of a derivation can be evaluated on this payload with
/// these parameters.
pub open spec fn all_rules_eval(rules: Seq<ComponentRule>, p: Payload, params: Seq<u64>) -> bool {
    forall|i: int|
        0 <= i < rules.len() ==> eval_spec(#[trigger] rules[i].x, p, params) is Some
            && eval_spec(rules[i].y, p, params) is Some
}

/// The output bundle of a derivation: one component per rule. If any rule
/// reads a missing parameter the whole bundle degrades to the well-defined
/// empty bundle; derivation never fails.
pub open spec fn bundle_spec(rules: Seq<ComponentRule>, p: Payload, params: Seq<u64>) -> Seq<
    Component,
> {
    if all_rules_eval(rules, p, params) {
        Seq::new(
            rules.len(),
            |i: int|
                Component {
                    ty: rules[i].ty,
                    x: eval_val(rules[i].x, p, params),
                    y: eval_val(rules[i].y, p, params),
                },
        )
    } else {
        Seq::empty()
    }
}

/// The component types a derivation produces, in rule order.
pub open spec fn rule_tys(rules: Seq<ComponentRule>) -> Seq<u64> {
    Seq::new(rules.len(), |i: int| rules[i].ty)
}

/// Evaluate one expression on a payload under the given parameters.
pub fn eval(e: Expr, p: &Payload, params: &Vec<u64>) -> (r: Option<u64>)
    ensures
        r == eval_spec(e, *p, params@),
{
    match e {
        Expr::Const(c) => Some(c),
        Expr::PayloadX => Some(p.x as u64),
        Expr::PayloadY => Some(p.y as u64),
        Expr::Product => {
            let px: u64 = p.x as u64;
            let py: u64 = p.y as u64;
            proof {
                assert(px * py <= 0xffff_ffffu64 * 0xffff_ffffu64) by (nonlinear_arith)
                    requires
                        px <= 0xffff_ffffu64,
                        py <= 0xffff_ffffu64,
                ;
            }
            Some(px * py)
        },
        Expr::Param(i) => if i < params.len() {
            Some(params[i])
        } else {
            None
        },
    }
}

impl Derivation {
    pub fn new(rules: Vec<ComponentRule>) -> (d: Derivation)
        ensures
            d@ == rules@,
    {
        Derivation { rules }
    }

    /// Derive the output bundle for a payload. A pure function of the
    /// payload, the rules and the parameters; on a missing parameter it
    /// returns the empty bundle rather than failing.
    pub fn derive(&self, p: &Payload, params: &Vec<u64>) -> (out: Vec<Component>)
        ensures
            out@ == bundle_spec(self@, *p, params@),
    {
        let mut out: Vec<Component> = Vec::new();
        let n = self.rules.len();
        let mut i: usize = 0;
        while i < n
            invariant
                n == self.rules.len(),
                0 <= i <= n,
                out@.len() == i,
                forall|j: int|
                    0 <= j < i ==> eval_spec(#[trigger] self.rules@[j].x, *p, params@) is Some
                        && eval_spec(self.rules@[j].y, *p, params@) is Some,
                forall|j: int|
                    0 <= j < i ==> #[trigger] out@[j] == (Component {
                        ty: self.rules@[j].ty,
                        x: eval_val(self.rules@[j].x, *p, params@),
                        y: eval_val(self.rules@[j].y, *p, params@),
                    }),
            decreases n - i,
        {
            let r = self.rules[i];
            let vx = eval(r.x, p, params);
            let vy = eval(r.y, p, params);
            match (vx, vy) {
                (Some(x), Some(y)) => {
                    out.push(Component { ty: r.ty, x, y });
                },
                _ => {
                    proof {
                        assert(!all_rules_eval(self@, *p, params@));
                    }
                    let empty: Vec<Component> = Vec::new();
                    return empty;
                },
            }
            i = i + 1;
        }
        proof {
            assert(all_rules_eval(self@, *p, params@));
            assert(out@ =~= bundle_spec(self@, *p, params@));
        }
        out
    }

    /// The component types this derivation writes, in rule order.
    pub fn output_tys(&self) -> (tys: Vec<u64>)
        ensures
            tys@ == rule_tys(self@),
    {
        let mut tys: Vec<u64> = Vec::new();
        let n = self.rules.len();
        let mut i: usize = 0;
        while i < n
            invariant
                n == self.rules.len(),
                0 <= i <= n,
                tys@.len() == i,
                forall|j: int| 0 <= j < i ==> #[trigger] tys@[j] == self.rules@[j].ty,
            decreases n - i,
        {
            tys.push(self.rules[i].ty);
            i = i + 1;
        }
        proof {
            assert(tys@ =~= rule_tys(self@));
        }
        tys
    }
}

} // verus!
