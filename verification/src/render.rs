//! The texts that a signature is rendered to: the parameter pattern of a
//! macro rule, the statements that bind its captures, and the signature of
//! a closure.

use vstd::prelude::*;
use vstd::string::*;
use crate::model::{holds_text, ArgumentModel, ReturnType, SignatureModel};

verus! {

/// The texts of `parts` one after another.
pub open spec fn concat(parts: Seq<Seq<char>>) -> Seq<char>
    decreases parts.len(),
{
    if parts.len() == 0 {
        Seq::empty()
    } else {
        concat(parts.drop_last()) + parts.last()
    }
}

/// The texts of `parts` one after another, with `separator` between each two.
pub open spec fn join(parts: Seq<Seq<char>>, separator: Seq<char>) -> Seq<char>
    decreases parts.len(),
{
    if parts.len() == 0 {
        Seq::empty()
    } else if parts.len() == 1 {
        parts[0]
    } else {
        join(parts.drop_last(), separator) + separator + parts.last()
    }
}

/// What captures one argument in a macro rule: `$name:expr`.
pub open spec fn macro_fragment(arg: ArgumentModel) -> Seq<char> {
    "$"@ + arg.name + ":expr"@
}

/// The parameter pattern of the macro rule: one capture for each argument,
/// in order, with a comma between each two.
pub open spec fn macro_signature_text(args: Seq<ArgumentModel>) -> Seq<char> {
    join(args.map_values(|arg: ArgumentModel| macro_fragment(arg)), ","@)
}

/// What binds one captured argument to a local name: `let name=$name;`.
pub open spec fn binding_fragment(arg: ArgumentModel) -> Seq<char> {
    "let "@ + arg.name + "=$"@ + arg.name + ";"@
}

/// The statements that open the macro's expansion: one binding for each
/// argument, in order, with nothing between them.
pub open spec fn binding_text(args: Seq<ArgumentModel>) -> Seq<char> {
    concat(args.map_values(|arg: ArgumentModel| binding_fragment(arg)))
}

/// The type that a closure can state for `type_def`: the placeholder `_` for
/// a generic parameter, else the type as written.
pub open spec fn closure_type(type_def: Seq<char>, generics: Set<Seq<char>>) -> Seq<char> {
    if generics.contains(type_def) {
        "_"@
    } else {
        type_def
    }
}

/// One parameter of the closure: `name:type,`.
pub open spec fn closure_fragment(arg: ArgumentModel, generics: Set<Seq<char>>) -> Seq<char> {
    arg.name + ":"@ + closure_type(arg.type_def, generics) + ","@
}

/// What the closure states of its result: `->type` for a written type that
/// is no generic parameter, else nothing.
pub open spec fn closure_return(return_param: Option<Seq<char>>, generics: Set<Seq<char>>) -> Seq<
    char,
> {
    match return_param {
        Some(type_def) => if generics.contains(type_def) {
            Seq::empty()
        } else {
            "->"@ + type_def
        },
        None => Seq::empty(),
    }
}

/// The signature as a closure's: the parameters between two bars, each
/// with its comma, and the result behind them.
pub open spec fn closure_text(m: SignatureModel) -> Seq<char> {
    "|"@ + concat(m.args.map_values(|arg: ArgumentModel| closure_fragment(arg, m.generics))) + "|"@
        + closure_return(m.return_param, m.generics)
}

/// The parameter pattern grows by one capture with each argument: the
/// first stands alone, every later one behind a single comma. So the
/// pattern of `n` arguments holds `n` captures in the order of the
/// arguments, `n - 1` commas between them, and none at either end.
pub proof fn lemma_macro_signature_grows(args: Seq<ArgumentModel>, arg: ArgumentModel)
    ensures
        macro_signature_text(Seq::empty()) == Seq::<char>::empty(),
        macro_signature_text(args.push(arg)) == if args.len() == 0 {
            macro_fragment(arg)
        } else {
            macro_signature_text(args) + ","@ + macro_fragment(arg)
        },
{
    let parts = args.push(arg).map_values(|a: ArgumentModel| macro_fragment(a));
    assert(parts.drop_last() =~= args.map_values(|a: ArgumentModel| macro_fragment(a)));
    assert(parts.last() == macro_fragment(arg));
    assert(Seq::<ArgumentModel>::empty().map_values(|a: ArgumentModel| macro_fragment(a)).len()
        == 0);
}

/// The bindings grow by one statement with each argument, and no
/// argument gives no text.
pub proof fn lemma_binding_grows(args: Seq<ArgumentModel>, arg: ArgumentModel)
    ensures
        binding_text(Seq::empty()) == Seq::<char>::empty(),
        binding_text(args.push(arg)) == binding_text(args) + binding_fragment(arg),
{
    let parts = args.push(arg).map_values(|a: ArgumentModel| binding_fragment(a));
    assert(parts.drop_last() =~= args.map_values(|a: ArgumentModel| binding_fragment(a)));
    assert(parts.last() == binding_fragment(arg));
    assert(Seq::<ArgumentModel>::empty().map_values(|a: ArgumentModel| binding_fragment(a)).len()
        == 0);
}

/// A renderer's text is a function of the signature's value: what two
/// calls on one signature return is the same text.
pub proof fn lemma_rendering_repeats(m: SignatureModel, first: Seq<char>, second: Seq<char>)
    requires
        (first == macro_signature_text(m.args) && second == macro_signature_text(m.args)) || (first
            == binding_text(m.args) && second == binding_text(m.args)) || (first == closure_text(m)
            && second == closure_text(m)),
    ensures
        first == second,
{
}

/// In a closure signature a generic parameter never stands as a type: an
/// argument of such a type is written `name:_,`, and behind the closing
/// bar nothing is written for a return type that is one.
pub proof fn lemma_closure_elides_generics(m: SignatureModel)
    ensures
        forall|k: int|
            0 <= k < m.args.len() && m.generics.contains(m.args[k].type_def)
                ==> #[trigger] closure_fragment(m.args[k], m.generics) == m.args[k].name + ":"@
                + "_"@ + ","@,
        forall|k: int|
            0 <= k < m.args.len() && !m.generics.contains(m.args[k].type_def)
                ==> #[trigger] closure_fragment(m.args[k], m.generics) == m.args[k].name + ":"@
                + m.args[k].type_def + ","@,
        m.return_param is Some && m.generics.contains(m.return_param->Some_0) ==> closure_text(m)
            == "|"@ + concat(
            m.args.map_values(|arg: ArgumentModel| closure_fragment(arg, m.generics)),
        ) + "|"@,
        m.return_param is Some && !m.generics.contains(m.return_param->Some_0) ==> closure_text(m)
            == "|"@ + concat(
            m.args.map_values(|arg: ArgumentModel| closure_fragment(arg, m.generics)),
        ) + "|"@ + "->"@ + m.return_param->Some_0,
{
    let bars = "|"@ + concat(
        m.args.map_values(|arg: ArgumentModel| closure_fragment(arg, m.generics)),
    ) + "|"@;
    assert(bars + Seq::<char>::empty() =~= bars);
    match m.return_param {
        Some(type_def) => {
            assert(bars + ("->"@ + type_def) =~= bars + "->"@ + type_def);
        },
        None => {},
    }
}

impl<'a> ReturnType<'a> {
    /// The name of the macro to generate.
    pub fn macro_name(&self) -> (name: &'a str)
        ensures
            name@ == self@.macro_name,
    {
        self.macro_name
    }

    /// Renders the signature as a closure's, generic types left to inference.
    pub fn to_closure_signature(&self) -> (out: String)
        ensures
            out@ == closure_text(self@),
    {
        let ghost parts = self@.args.map_values(
            |arg: ArgumentModel| closure_fragment(arg, self@.generics),
        );
        let mut result = String::new();
        result.append("|");
        let mut i: usize = 0;
        while i < self.args.len()
            invariant
                i <= self.args@.len(),
                parts == self@.args.map_values(
                    |arg: ArgumentModel| closure_fragment(arg, self@.generics),
                ),
                result@ == "|"@ + concat(parts.take(i as int)),
            decreases self.args@.len() - i,
        {
            let arg = &self.args[i];
            let ghost before = result@;
            result.append(arg.name);
            result.append(":");
            if holds_text(&self.generics, arg.type_def) {
                result.append("_");
            } else {
                result.append(arg.type_def);
            }
            result.append(",");
            proof {
                assert(parts.take(i + 1).drop_last() =~= parts.take(i as int));
                assert(parts.take(i + 1).last() == closure_fragment(arg@, self@.generics));
                assert(result@ =~= before + closure_fragment(arg@, self@.generics));
                assert(result@ =~= "|"@ + concat(parts.take(i + 1)));
            }
            i += 1;
        }
        assert(parts.take(i as int) =~= parts);
        result.append("|");
        match self.return_param {
            Some(result_type) => {
                if !holds_text(&self.generics, result_type) {
                    result.append("->");
                    result.append(result_type);
                }
            },
            None => {},
        }
        assert(result@ =~= closure_text(self@));
        result
    }

    /// Renders the parameter pattern of the macro rule.
    pub fn to_macro_signature(&self) -> (out: String)
        ensures
            out@ == macro_signature_text(self@.args),
            self@.args.len() == 0 ==> out@.len() == 0,
    {
        let ghost parts = self@.args.map_values(|arg: ArgumentModel| macro_fragment(arg));
        let mut result = String::new();
        let mut i: usize = 0;
        while i < self.args.len()
            invariant
                i <= self.args@.len(),
                parts == self@.args.map_values(|arg: ArgumentModel| macro_fragment(arg)),
                result@ == join(parts.take(i as int), ","@),
            decreases self.args@.len() - i,
        {
            let arg = &self.args[i];
            let ghost before = result@;
            if i > 0 {
                result.append(",");
            }
            result.append("$");
            result.append(arg.name);
            result.append(":expr");
            proof {
                assert(parts.take(i + 1).drop_last() =~= parts.take(i as int));
                assert(parts.take(i + 1).last() == macro_fragment(arg@));
                if i > 0 {
                    assert(result@ =~= before + ","@ + macro_fragment(arg@));
                } else {
                    assert(result@ =~= macro_fragment(arg@));
                }
            }
            i += 1;
        }
        assert(parts.take(i as int) =~= parts);
        result
    }

    /// Renders the statements that bind each captured argument to its name.
    pub fn to_binding(&self) -> (out: String)
        ensures
            out@ == binding_text(self@.args),
            self@.args.len() == 0 ==> out@.len() == 0,
    {
        let ghost parts = self@.args.map_values(|arg: ArgumentModel| binding_fragment(arg));
        let mut result = String::new();
        let mut i: usize = 0;
        while i < self.args.len()
            invariant
                i <= self.args@.len(),
                parts == self@.args.map_values(|arg: ArgumentModel| binding_fragment(arg)),
                result@ == concat(parts.take(i as int)),
            decreases self.args@.len() - i,
        {
            let arg = &self.args[i];
            let ghost before = result@;
            result.append("let ");
            result.append(arg.name);
            result.append("=$");
            result.append(arg.name);
            result.append(";");
            proof {
                assert(parts.take(i + 1).drop_last() =~= parts.take(i as int));
                assert(parts.take(i + 1).last() == binding_fragment(arg@));
                assert(result@ =~= before + binding_fragment(arg@));
            }
            i += 1;
        }
        assert(parts.take(i as int) =~= parts);
        result
    }
}

} // verus!
