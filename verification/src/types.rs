//! The types of Yarn values and of the functions that scripts may call.
use vstd::prelude::*;

verus! {

/// The type of a Yarn value.
#[derive(Debug)]
pub enum Type {
    /// Any type: a value is known to exist, its type is not.
    Any,
    /// `bool`.
    Boolean,
    /// A function.
    Function(FunctionType),
    /// A 32-bit floating point number.
    Number,
    /// A string.
    String,
}

/// The type of a function: its parameters, its return type, and the type of its
/// variadic arguments, if it takes any.
#[derive(Debug)]
pub struct FunctionType {
    /// The parameter types; their count is the function's arity.
    pub parameters: Vec<Option<Type>>,
    /// The return type.
    pub return_type: Box<Option<Type>>,
    /// If `Some`, further arguments of this type may follow the parameters.
    pub variadic_parameter_type: Option<Box<Type>>,
}

impl FunctionType {
    /// A function type without parameters, return type or variadic arguments.
    pub fn new() -> (r: FunctionType)
        ensures
            r.parameters@.len() == 0,
            *r.return_type == None::<Type>,
            r.variadic_parameter_type is None,
    {
        FunctionType { parameters: Vec::new(), return_type: Box::new(None), variadic_parameter_type: None }
    }

    /// Sets the return type of this function signature; returns the signature, for
    /// chaining.
    pub fn set_return_type(&mut self, return_type: Option<Type>) -> (r: &mut Self)
        ensures
            *r.return_type == return_type,
            r.parameters@ == old(self).parameters@,
            r.variadic_parameter_type == old(self).variadic_parameter_type,
            *final(self) == *final(r),
    {
        self.return_type = Box::new(return_type);
        self
    }

    /// Appends a parameter type to this function signature; returns the signature,
    /// for chaining.
    pub fn add_parameter(&mut self, parameter: Option<Type>) -> (r: &mut Self)
        ensures
            r.parameters@ == old(self).parameters@.push(parameter),
            *r.return_type == *old(self).return_type,
            r.variadic_parameter_type == old(self).variadic_parameter_type,
            *final(self) == *final(r),
    {
        self.parameters.push(parameter);
        self
    }
}

impl From<FunctionType> for Type {
    fn from(function_type: FunctionType) -> (r: Type) {
        Type::Function(function_type)
    }
}

impl vstd::std_specs::convert::FromSpecImpl<FunctionType> for Type {
    open spec fn obeys_from_spec() -> bool {
        true
    }

    open spec fn from_spec(function_type: FunctionType) -> Type {
        Type::Function(function_type)
    }
}

/// A copy of a type.
fn copy_type(t: &Type) -> (r: Type)
    decreases t, 0nat,
{
    match t {
        Type::Any => Type::Any,
        Type::Boolean => Type::Boolean,
        Type::Function(f) => Type::Function(copy_function_type(f)),
        Type::Number => Type::Number,
        Type::String => Type::String,
    }
}

/// A copy of an optional type.
fn copy_optional_type(t: &Option<Type>) -> (r: Option<Type>)
    decreases t, 1nat,
{
    match t {
        Some(x) => Some(copy_type(x)),
        None => None,
    }
}

/// A copy of a function type.
fn copy_function_type(f: &FunctionType) -> (r: FunctionType)
    ensures
        r.parameters@.len() == f.parameters@.len(),
    decreases f, 2nat,
{
    let mut parameters: Vec<Option<Type>> = Vec::new();
    let mut i: usize = 0;
    while i < f.parameters.len()
        invariant
            i <= f.parameters@.len(),
            parameters@.len() == i,
        decreases f.parameters.len() - i,
    {
        assert(decreases_to!(f => f.parameters@[i as int]));
        parameters.push(copy_optional_type(&f.parameters[i]));
        i = i + 1;
    }
    let return_type = copy_optional_type(&*f.return_type);
    let variadic_parameter_type = match &f.variadic_parameter_type {
        Some(t) => Some(Box::new(copy_type(&**t))),
        None => None,
    };
    FunctionType { parameters, return_type: Box::new(return_type), variadic_parameter_type }
}

impl Clone for Type {
    /// A copy of this type.
    fn clone(&self) -> (r: Self) {
        copy_type(self)
    }
}

impl Clone for FunctionType {
    /// A copy of this function type, with as many parameters.
    fn clone(&self) -> (r: Self)
        ensures
            r.parameters@.len() == self.parameters@.len(),
    {
        copy_function_type(self)
    }
}

} // verus!
