//! The function registry: the natively implemented routines this extension
//! ships, and the exported functions declared over them.

use vstd::prelude::*;
use crate::value::{views, Kind, Value, ValueView};

verus! {

/// The text that [`hello_from_bin`] answers with.
pub open spec fn greeting() -> Seq<char> {
    "Hello from astrbox!"@
}

/// Greets the caller. Takes nothing, reads nothing, and always answers with
/// the same text.
pub fn hello_from_bin() -> (text: String)
    ensures
        text@ == greeting(),
{
    "Hello from astrbox!".to_string()
}

/// A natively implemented routine. Every routine is pure: what it hands back
/// depends on its arguments and on nothing else.
#[derive(Clone, Copy, Debug, PartialEq, Eq, Structural)]
pub enum Routine {
    /// [`hello_from_bin`]: no arguments, answers with a greeting.
    HelloFromBin,
}

/// A call that the called function itself refused.
#[derive(Clone, Copy, Debug, PartialEq, Eq, Structural)]
pub enum InvocationError {
    /// The function takes `expected` arguments and was handed `given`.
    ArityMismatch { expected: usize, given: usize },
    /// The argument at `position`, counted from zero, is of the kind
    /// `argument` where the function takes one of the kind `parameter`.
    KindMismatch { position: usize, parameter: Kind, argument: Kind },
}

/// What an exported function takes and hands back, agreed when the function
/// is declared: the kinds of its parameters, in order, and the kind of its
/// result.
#[derive(Debug, PartialEq, Eq)]
pub struct Signature {
    pub parameters: Vec<Kind>,
    pub result: Kind,
}

/// The contents of a [`Signature`].
pub ghost struct SignatureModel {
    pub parameters: Seq<Kind>,
    pub result: Kind,
}

impl View for Signature {
    type V = SignatureModel;

    open spec fn view(&self) -> SignatureModel {
        SignatureModel { parameters: self.parameters@, result: self.result }
    }
}

/// The first place at or behind `from` where an argument is not of the kind
/// that the parameter at that place asks for.
pub open spec fn first_mismatch(
    parameters: Seq<Kind>,
    args: Seq<ValueView>,
    from: int,
) -> Option<int>
    decreases parameters.len() - from,
{
    if from < 0 || from >= parameters.len() || from >= args.len() {
        None
    } else if args[from].kind() != parameters[from] {
        Some(from)
    } else {
        first_mismatch(parameters, args, from + 1)
    }
}

/// Why `args` cannot be handed to a function with these parameters, if they
/// cannot: their number is wrong, or else the first argument of a wrong kind
/// is.
pub open spec fn refusal(parameters: Seq<Kind>, args: Seq<ValueView>) -> Option<InvocationError> {
    if args.len() != parameters.len() {
        Some(
            InvocationError::ArityMismatch {
                expected: parameters.len() as usize,
                given: args.len() as usize,
            },
        )
    } else {
        match first_mismatch(parameters, args, 0) {
            Some(i) => Some(
                InvocationError::KindMismatch {
                    position: i as usize,
                    parameter: parameters[i],
                    argument: args[i].kind(),
                },
            ),
            None => None,
        }
    }
}

/// [`first_mismatch`] finds the least place where the kinds differ, and finds
/// none exactly when the kinds agree everywhere.
pub proof fn law_first_mismatch_is_least(parameters: Seq<Kind>, args: Seq<ValueView>, from: int)
    requires
        0 <= from,
        args.len() == parameters.len(),
    ensures
        match first_mismatch(parameters, args, from) {
            Some(i) => {
                &&& from <= i < parameters.len()
                &&& args[i].kind() != parameters[i]
                &&& forall|j: int| from <= j < i ==> (#[trigger] args[j]).kind() == parameters[j]
            },
            None => forall|j: int|
                from <= j < parameters.len() ==> (#[trigger] args[j]).kind() == parameters[j],
        },
    decreases parameters.len() - from,
{
    if from < parameters.len() && args[from].kind() == parameters[from] {
        law_first_mismatch_is_least(parameters, args, from + 1);
    }
}

impl Signature {
    /// Holds `args` against the parameters: their number first, then their
    /// kinds from the first argument on.
    pub fn check(&self, args: &[Value]) -> (r: Result<(), InvocationError>)
        ensures
            r == match refusal(self@.parameters, views(args@)) {
                Some(e) => Err::<(), InvocationError>(e),
                None => Ok(()),
            },
    {
        let expected = self.parameters.len();
        let given = args.len();
        if given != expected {
            return Err(InvocationError::ArityMismatch { expected, given });
        }
        let mut i: usize = 0;
        while i < expected
            invariant
                i <= expected,
                expected == self.parameters.len(),
                given == args.len(),
                given == expected,
                first_mismatch(self@.parameters, views(args@), 0) == first_mismatch(
                    self@.parameters,
                    views(args@),
                    i as int,
                ),
            decreases expected - i,
        {
            let kind = args[i].kind();
            assert(views(args@)[i as int] == args@[i as int]@);
            if kind != self.parameters[i] {
                return Err(
                    InvocationError::KindMismatch {
                        position: i,
                        parameter: self.parameters[i],
                        argument: kind,
                    },
                );
            }
            i = i + 1;
        }
        Ok(())
    }
}

/// What a call hands back, with the value taken by its contents.
pub open spec fn outcome_view(r: Result<Value, InvocationError>) -> Result<
    ValueView,
    InvocationError,
> {
    match r {
        Ok(v) => Ok(v@),
        Err(e) => Err(e),
    }
}

impl Routine {
    /// The signature of the routine.
    pub open spec fn spec_signature(self) -> SignatureModel {
        match self {
            Routine::HelloFromBin => SignatureModel {
                parameters: Seq::<Kind>::empty(),
                result: Kind::Text,
            },
        }
    }

    /// What the routine makes of arguments that fit its signature.
    pub open spec fn answer(self, args: Seq<ValueView>) -> ValueView {
        match self {
            Routine::HelloFromBin => ValueView::Text(greeting()),
        }
    }

    /// What a call of the routine on `args` hands back: the refusal, where
    /// the arguments do not fit the signature, and else the answer. This is
    /// a function of the arguments alone, which is what makes a routine
    /// pure.
    pub open spec fn outcome(self, args: Seq<ValueView>) -> Result<ValueView, InvocationError> {
        match refusal(self.spec_signature().parameters, args) {
            Some(e) => Err(e),
            None => Ok(self.answer(args)),
        }
    }

    /// The signature of the routine.
    pub fn signature(self) -> (signature: Signature)
        ensures
            signature@ == self.spec_signature(),
    {
        match self {
            Routine::HelloFromBin => Signature { parameters: Vec::new(), result: Kind::Text },
        }
    }

    /// Runs the routine on `args`.
    pub fn invoke(self, args: &[Value]) -> (r: Result<Value, InvocationError>)
        ensures
            outcome_view(r) == self.outcome(views(args@)),
    {
        match self.signature().check(args) {
            Err(e) => Err(e),
            Ok(()) => match self {
                Routine::HelloFromBin => Ok(Value::Text(hello_from_bin())),
            },
        }
    }
}

/// A value that a routine hands back is of the kind that its signature
/// names.
pub proof fn law_answer_has_declared_kind(routine: Routine, args: Seq<ValueView>)
    ensures
        routine.outcome(args) matches Ok(v) ==> v.kind() == routine.spec_signature().result,
{
}

/// The contents of an [`ExportedFunction`].
pub ghost struct FunctionView {
    /// The stable name the function was declared under.
    pub name: Seq<char>,
    /// The routine that runs when the function is called.
    pub routine: Routine,
}

/// A natively implemented function made callable from the host: a stable
/// name and the routine behind it. Once declared it never changes.
///
/// Two exported functions are the same function exactly when their contents
/// are equal.
#[derive(Debug, PartialEq, Eq)]
pub struct ExportedFunction {
    name: String,
    routine: Routine,
}

impl Clone for ExportedFunction {
    /// A second handle on the same function.
    fn clone(&self) -> (f: ExportedFunction)
        ensures
            f@ == self@,
    {
        ExportedFunction { name: self.name.clone(), routine: self.routine }
    }
}

impl View for ExportedFunction {
    type V = FunctionView;

    closed spec fn view(&self) -> FunctionView {
        FunctionView { name: self.name@, routine: self.routine }
    }
}

impl ExportedFunction {
    /// Declares a function: associates the stable name `name` with `routine`.
    pub fn new(name: &str, routine: Routine) -> (f: ExportedFunction)
        ensures
            f@ == (FunctionView { name: name@, routine }),
    {
        ExportedFunction { name: name.to_owned(), routine }
    }

    /// The stable name.
    pub fn name(&self) -> (s: &str)
        ensures
            s@ == self@.name,
    {
        self.name.as_str()
    }

    /// The routine behind the function.
    pub fn routine(&self) -> (r: Routine)
        ensures
            r == self@.routine,
    {
        self.routine
    }

    /// Whether `self` and `other` are the same function.
    pub fn same_as(&self, other: &ExportedFunction) -> (r: bool)
        ensures
            r == (self@ == other@),
    {
        self.name == other.name && self.routine == other.routine
    }

    /// Calls the function. Whatever the routine answers, a value or an
    /// error, is handed on as it is.
    pub fn call(&self, args: &[Value]) -> (r: Result<Value, InvocationError>)
        ensures
            outcome_view(r) == self@.routine.outcome(views(args@)),
    {
        self.routine.invoke(args)
    }
}

/// The stable name is the identity of a function: two exported functions
/// with one stable name are one function. This rests on the registry knowing
/// a single routine. A second routine has to come with a rule that keeps
/// two routines from sharing a stable name, or this proof fails.
pub proof fn law_stable_name_names_the_function(f: FunctionView, g: FunctionView)
    ensures
        f.name == g.name <==> f == g,
{
}

/// Purity: two calls of one function on arguments with the same contents
/// hand back the same thing, be it a value or an error.
pub proof fn law_call_is_pure(
    f: ExportedFunction,
    first_args: Seq<Value>,
    second_args: Seq<Value>,
    first: Result<Value, InvocationError>,
    second: Result<Value, InvocationError>,
)
    requires
        views(first_args) == views(second_args),
        outcome_view(first) == f@.routine.outcome(views(first_args)),
        outcome_view(second) == f@.routine.outcome(views(second_args)),
    ensures
        outcome_view(first) == outcome_view(second),
{
}

} // verus!
