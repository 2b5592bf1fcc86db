//! Diagnostic rendering of patterns and references.
//!
//! Patterns print as `class nullability variation parameters`: the
//! class name; `?` when nullability resolves to true, nothing when it
//! resolves to false, `?<name>` while unresolved, `??` when no
//! nullability metavariable was supplied; `[variation]` when specified,
//! nothing for the base variation, `[?]` when unspecified; and the
//! parameter pack in angle brackets, omitted entirely when unspecified.
//! A named parameter prints as `name: value`, with the name bare when
//! it is a plain identifier and quoted otherwise.  Each renderer's
//! contract ties its output to the spec-level rendering of the same
//! value.

use crate::context::Context;
use crate::pattern::Parameter;
use crate::pattern::Pattern;
use crate::reference::Key;
use crate::reference::Reference;
use vstd::prelude::*;

verus! {

/// The decimal digit character for `d`.
pub open spec fn digit_char(d: int) -> char {
    "0123456789"@[d]
}

/// The decimal digits of `v`, most significant first; empty for zero.
pub open spec fn u64_digits(v: nat) -> Seq<char>
    decreases v,
{
    if v == 0 {
        Seq::empty()
    } else {
        u64_digits(v / 10).push(digit_char((v % 10) as int))
    }
}

/// The decimal rendering of `v`.
pub open spec fn spec_u64_string(v: nat) -> Seq<char> {
    if v == 0 {
        seq!['0']
    } else {
        u64_digits(v)
    }
}

/// The digit characters of a list of digit values, last entry first.
spec fn parts_digits(ps: Seq<u64>) -> Seq<char>
    decreases ps,
{
    if ps.len() == 0 {
        Seq::empty()
    } else {
        seq![digit_char((ps[ps.len() - 1] % 10) as int)] + parts_digits(ps.drop_last())
    }
}

/// Renders an unsigned number in decimal.
pub fn u64_string(value: u64) -> (r: String)
    ensures
        r@ == spec_u64_string(value as nat),
{
    let digits = "0123456789";
    proof {
        reveal_strlit("0123456789");
    }
    let mut rest = value;
    let mut out = String::new();
    if rest == 0 {
        out.append("0");
        proof {
            reveal_strlit("0");
            assert(out@ =~= spec_u64_string(value as nat));
        }
        return out;
    }
    let mut parts: Vec<u64> = Vec::new();
    while rest > 0
        invariant
            u64_digits(value as nat) =~= u64_digits(rest as nat) + parts_digits(parts@),
            rest == 0 ==> parts@.len() > 0,
            value > 0,
        decreases rest,
    {
        let ghost parts0 = parts@;
        let d = rest % 10;
        parts.push(d);
        rest = rest / 10;
        proof {
            assert(parts@.drop_last() =~= parts0);
            assert(parts_digits(parts@) =~= seq![digit_char(d as int)] + parts_digits(parts0));
            assert(u64_digits(value as nat) =~= u64_digits(rest as nat) + parts_digits(
                parts@,
            ));
        }
    }
    proof {
        assert(u64_digits(0nat) =~= Seq::<char>::empty());
        assert(u64_digits(value as nat) =~= parts_digits(parts@));
    }
    let n = parts.len();
    let mut i: usize = n;
    while i > 0
        invariant
            n == parts@.len(),
            i <= n,
            digits@ == "0123456789"@,
            out@ =~= parts_digits(parts@.subrange(i as int, n as int)),
        decreases i,
    {
        i -= 1;
        let d = parts[i];
        let lo = (d % 10) as usize;
        proof {
            reveal_strlit("0123456789");
            assert(digits@.len() == 10);
        }
        let piece = digits.substring_char(lo, lo + 1);
        out.append(piece);
        proof {
            let sub1 = parts@.subrange(i as int, n as int);
            let sub0 = parts@.subrange(i + 1, n as int);
            assert(sub1.drop_last() =~= parts@.subrange(i as int, n as int - 1));
            assert(piece@ =~= seq![digits@[lo as int]]);
            assert(out@ =~= parts_digits(sub0) + seq![digit_char((parts@[i as int]
                % 10) as int)]);
            assert(out@ =~= parts_digits(sub1)) by {
                lemma_parts_digits_step(parts@, i as int, n as int);
            }
        }
    }
    proof {
        assert(parts@.subrange(0, n as int) =~= parts@);
        assert(out@ =~= spec_u64_string(value as nat));
    }
    out
}

/// Splitting off the first remaining digit value of a suffix.
proof fn lemma_parts_digits_step(ps: Seq<u64>, i: int, n: int)
    requires
        0 <= i < n <= ps.len(),
    ensures
        parts_digits(ps.subrange(i, n)) =~= parts_digits(ps.subrange(i + 1, n)) + seq![
            digit_char((ps[i] % 10) as int),
        ],
    decreases n - i,
{
    let sub = ps.subrange(i, n);
    if i + 1 == n {
        assert(sub.len() == 1);
        assert(sub.drop_last() =~= Seq::<u64>::empty());
        assert(ps.subrange(i + 1, n) =~= Seq::<u64>::empty());
        assert(sub[0] == ps[i]);
    } else {
        assert(sub.drop_last() =~= ps.subrange(i, n - 1));
        lemma_parts_digits_step(ps, i, n - 1);
        assert(ps.subrange(i + 1, n).drop_last() =~= ps.subrange(i + 1, n - 1));
        assert(sub[sub.len() - 1] == ps[n - 1]);
        assert(ps.subrange(i + 1, n)[ps.subrange(i + 1, n).len() - 1] == ps[n - 1]);
    }
}

/// Whether a character may appear in a plain identifier at position
/// `i`.
pub open spec fn ident_char(ch: char, i: int) -> bool {
    ('a' <= ch && ch <= 'z') || ('A' <= ch && ch <= 'Z') || ch == '_' || ('0' <= ch && ch <= '9'
        && i > 0)
}

/// Whether the character sequence is a plain identifier.
pub open spec fn spec_is_identifier(s: Seq<char>) -> bool {
    s.len() > 0 && forall|i: int| 0 <= i < s.len() ==> ident_char(#[trigger] s[i], i)
}

/// Whether the string is a plain identifier: letters, digits and
/// underscores, not starting with a digit, and not empty.
pub fn is_identifier(s: &str) -> (r: bool)
    ensures
        r == spec_is_identifier(s@),
{
    let n = s.unicode_len();
    if n == 0 {
        return false;
    }
    let mut i: usize = 0;
    while i < n
        invariant
            n == s@.len(),
            i <= n,
            forall|k: int| 0 <= k < i ==> ident_char(#[trigger] s@[k], k),
        decreases n - i,
    {
        let ch = s.get_char(i);
        let alpha = ('a' <= ch && ch <= 'z') || ('A' <= ch && ch <= 'Z') || ch == '_';
        let digit = '0' <= ch && ch <= '9';
        if !(alpha || (digit && i > 0)) {
            return false;
        }
        i += 1;
    }
    true
}

/// The display name of an unbound reference: the raw description, or a
/// rendering of the key.
pub open spec fn spec_ref_display_fallback(r: Reference) -> Seq<char> {
    match r.description {
        Some(d) => d@,
        None => match r.key {
            Key::Generic(name) => name@,
            Key::Inferred(id) => "?"@ + spec_u64_string(id as nat),
            Key::FunctionParameterType(i) => "parameter "@ + spec_u64_string(i as nat),
            Key::FunctionReturnType => "return type"@,
        },
    }
}

/// The spec-level display name of a reference: the alias's name once
/// bound, the raw description before that, or a rendering of the key.
pub open spec fn spec_ref_display(ctx: Context, r: Reference) -> Seq<char> {
    match r.alias {
        Some(a) => if (a as int) < ctx.aliases@.len() {
            ctx.aliases@[a as int].name@
        } else {
            spec_ref_display_fallback(r)
        },
        None => spec_ref_display_fallback(r),
    }
}

impl Reference {
    /// The display name of this reference: the alias's name once bound,
    /// the raw description before that, or a rendering of the key.
    pub fn display(&self, ctx: &Context) -> (r: String)
        ensures
            r@ == spec_ref_display(*ctx, *self),
    {
        if let Some(a) = self.alias {
            if a < ctx.aliases.len() {
                return ctx.aliases[a].name.clone();
            }
        }
        if let Some(d) = &self.description {
            return d.clone();
        }
        let mut out = String::new();
        match &self.key {
            Key::Generic(name) => {
                out.append(name.as_str());
            },
            Key::Inferred(id) => {
                out.append("?");
                let s = u64_string(*id);
                out.append(s.as_str());
            },
            Key::FunctionParameterType(i) => {
                out.append("parameter ");
                let s = u64_string(*i as u64);
                out.append(s.as_str());
            },
            Key::FunctionReturnType => {
                out.append("return type");
            },
        }
        out
    }
}

/// The spec-level rendering of a parameter: `name: reference` with the
/// name quoted unless it is a plain identifier, or the bare reference.
pub open spec fn spec_param_display(ctx: Context, p: Parameter) -> Seq<char> {
    match p.name {
        Some(name) => (if spec_is_identifier(name@) {
            name@
        } else {
            "\""@ + name@ + "\""@
        }) + ": "@ + spec_ref_display(ctx, p.value),
        None => spec_ref_display(ctx, p.value),
    }
}

impl Parameter {
    /// Renders the parameter as `name: reference` or bare `reference`;
    /// a name that is not a plain identifier is quoted.
    #[verifier::rlimit(60)]
    pub fn display(&self, ctx: &Context) -> (r: String)
        ensures
            r@ == spec_param_display(*ctx, *self),
    {
        let mut out = String::new();
        if let Some(name) = &self.name {
            if is_identifier(name.as_str()) {
                out.append(name.as_str());
            } else {
                out.append("\"");
                out.append(name.as_str());
                out.append("\"");
            }
            out.append(": ");
        }
        let v = self.value.display(ctx);
        out.append(v.as_str());
        out
    }
}

/// The spec-level rendering of a parameter pack, comma separated.
pub open spec fn spec_params_display(ctx: Context, ps: Seq<Parameter>) -> Seq<char>
    decreases ps,
{
    if ps.len() == 0 {
        Seq::empty()
    } else if ps.len() == 1 {
        spec_param_display(ctx, ps[0])
    } else {
        spec_params_display(ctx, ps.drop_last()) + ", "@ + spec_param_display(
            ctx,
            ps[ps.len() - 1],
        )
    }
}

/// The spec-level rendering of a pattern, following the diagnostic
/// grammar: class name, nullability marker, variation marker, and the
/// parameter pack when the class takes parameters and the pack is
/// specified.
pub open spec fn spec_pattern_display(ctx: Context, p: Pattern) -> Seq<char> {
    let nul = match p.nullable {
        Some(r) => match crate::semantics::spec_ref_bool_value(ctx.sem(), r.sem()) {
            Some(true) => "?"@,
            Some(false) => Seq::empty(),
            None => "?"@ + spec_ref_display(ctx, r),
        },
        None => "??"@,
    };
    let var = match p.variation {
        Some(crate::data_type::Variation::User(_, name)) => "["@ + name@ + "]"@,
        Some(crate::data_type::Variation::Base) => Seq::empty(),
        None => "[?]"@,
    };
    let pack = if p.class.kinds@.len() > 0 {
        match p.parameters {
            Some(ps) => "<"@ + spec_params_display(ctx, ps@) + ">"@,
            None => Seq::empty(),
        }
    } else {
        Seq::empty()
    };
    p.class.name@ + nul + var + pack
}

impl Pattern {
    /// Renders the pattern following the diagnostic grammar.
    #[verifier::rlimit(100)]
    pub fn display(&self, ctx: &Context) -> (r: String)
        requires
            ctx.wf(),
        ensures
            r@ == spec_pattern_display(*ctx, *self),
    {
        let mut out = String::new();
        out.append(self.class.name.as_str());
        match &self.nullable {
            Some(r) => match ctx.ref_bool_value(r) {
                Some(true) => {
                    out.append("?");
                },
                Some(false) => {},
                None => {
                    out.append("?");
                    let s = r.display(ctx);
                    out.append(s.as_str());
                },
            },
            None => {
                out.append("??");
            },
        }
        match &self.variation {
            Some(crate::data_type::Variation::User(_, name)) => {
                out.append("[");
                out.append(name.as_str());
                out.append("]");
            },
            Some(crate::data_type::Variation::Base) => {},
            None => {
                out.append("[?]");
            },
        }
        if self.class.has_parameters() {
            if let Some(ps) = &self.parameters {
                out.append("<");
                let n = ps.len();
                let mut i: usize = 0;
                while i < n
                    invariant
                        ctx.wf(),
                        self.parameters == Some(*ps),
                        n == ps@.len(),
                        i <= n,
                        out@ =~= spec_pattern_display_prefix(*ctx, *self) + "<"@
                            + spec_params_display(*ctx, ps@.subrange(0, i as int)),
                    decreases n - i,
                {
                    if i > 0 {
                        out.append(", ");
                    }
                    let s = ps[i].display(ctx);
                    out.append(s.as_str());
                    proof {
                        let sub1 = ps@.subrange(0, i + 1);
                        assert(sub1.drop_last() =~= ps@.subrange(0, i as int));
                        assert(sub1[sub1.len() - 1] == ps@[i as int]);
                        assert(out@ =~= spec_pattern_display_prefix(*ctx, *self) + "<"@
                            + spec_params_display(*ctx, sub1));
                    }
                    i += 1;
                }
                out.append(">");
                proof {
                    assert(ps@.subrange(0, n as int) =~= ps@);
                    assert(out@ =~= spec_pattern_display(*ctx, *self));
                }
                return out;
            }
        }
        proof {
            assert(out@ =~= spec_pattern_display(*ctx, *self));
        }
        out
    }
}

/// The rendering of a pattern before its parameter pack: class name and
/// the nullability and variation markers.
pub open spec fn spec_pattern_display_prefix(ctx: Context, p: Pattern) -> Seq<char> {
    let nul = match p.nullable {
        Some(r) => match crate::semantics::spec_ref_bool_value(ctx.sem(), r.sem()) {
            Some(true) => "?"@,
            Some(false) => Seq::empty(),
            None => "?"@ + spec_ref_display(ctx, r),
        },
        None => "??"@,
    };
    let var = match p.variation {
        Some(crate::data_type::Variation::User(_, name)) => "["@ + name@ + "]"@,
        Some(crate::data_type::Variation::Base) => Seq::empty(),
        None => "[?]"@,
    };
    p.class.name@ + nul + var
}

} // verus!
