//! The `koto` module: what a script can ask of the runtime that runs it.
//!
//! Values that the runtime holds are known here by their handles.

use vstd::hash_map::StringHashMap;
use vstd::prelude::*;

verus! {

/// A value that the runtime holds.
pub type ValueHandle = u64;

/// A map that the runtime holds. Whoever has its handle shares the map.
pub type MapHandle = u64;

/// The functions of the module.
#[derive(Clone, Copy, Debug, PartialEq, Eq, Structural)]
pub enum KotoFunction {
    /// Gives the map that a script exports its values to.
    Exports,
    /// Gives the name of the type of its one argument.
    Type,
}

/// What the module holds, and what its functions give.
#[derive(Clone, Debug, PartialEq)]
pub enum Value {
    Empty,
    Str(String),
    Tuple(Vec<ValueHandle>),
    SharedMap(MapHandle),
    Function(KotoFunction),
}

/// What a [`Value`] holds.
pub enum ValueView {
    Empty,
    Str(Seq<char>),
    Tuple(Seq<ValueHandle>),
    SharedMap(MapHandle),
    Function(KotoFunction),
}

impl View for Value {
    type V = ValueView;

    open spec fn view(&self) -> ValueView {
        match *self {
            Value::Empty => ValueView::Empty,
            Value::Str(string) => ValueView::Str(string@),
            Value::Tuple(items) => ValueView::Tuple(items@),
            Value::SharedMap(handle) => ValueView::SharedMap(handle),
            Value::Function(function) => ValueView::Function(function),
        }
    }
}

/// Values by their names.
pub struct ValueMap {
    entries: StringHashMap<Value>,
}

impl View for ValueMap {
    type V = Map<Seq<char>, ValueView>;

    closed spec fn view(&self) -> Map<Seq<char>, ValueView> {
        self.entries@.map_values(|value: Value| value@)
    }
}

impl ValueMap {
    /// A map without values.
    pub fn new() -> (map: Self)
        ensures
            map@ == Map::<Seq<char>, ValueView>::empty(),
    {
        let map = ValueMap { entries: StringHashMap::new() };
        assert(map@ =~= Map::<Seq<char>, ValueView>::empty());
        map
    }

    /// Gives a name a value.
    pub fn add_value(&mut self, name: &str, value: Value)
        ensures
            final(self)@ == old(self)@.insert(name@, value@),
    {
        self.entries.insert(name.to_owned(), value);
        assert(self@ =~= old(self)@.insert(name@, value@));
    }

    /// Gives a name a function.
    pub fn add_fn(&mut self, name: &str, function: KotoFunction)
        ensures
            final(self)@ == old(self)@.insert(name@, ValueView::Function(function)),
    {
        self.add_value(name, Value::Function(function));
    }

    /// The value with a name, if there is one.
    pub fn get(&self, name: &str) -> (value: Option<&Value>)
        ensures
            match value {
                Some(value) => self@.contains_key(name@) && self@[name@] == value@,
                None => !self@.contains_key(name@),
            },
    {
        self.entries.get(name)
    }

    /// The number of values.
    pub fn len(&self) -> (len: usize)
        ensures
            len == self@.len(),
    {
        assert(self@.dom() =~= self.entries@.dom());
        self.entries.len()
    }
}

/// What the `koto` module holds: no arguments, no script, and its two functions.
pub open spec fn koto_module() -> Map<Seq<char>, ValueView> {
    map![
        "args"@ => ValueView::Tuple(Seq::empty()),
        "exports"@ => ValueView::Function(KotoFunction::Exports),
        "script_dir"@ => ValueView::Empty,
        "script_path"@ => ValueView::Empty,
        "type"@ => ValueView::Function(KotoFunction::Type),
    ]
}

/// Makes the `koto` module, for the runtime to complete with the arguments and the path of a
/// script.
pub fn make_module() -> (module: ValueMap)
    ensures
        module@ == koto_module(),
{
    let mut module = ValueMap::new();
    let args: Vec<ValueHandle> = Vec::new();
    assert(args@ =~= Seq::<ValueHandle>::empty());
    module.add_value("args", Value::Tuple(args));
    module.add_fn("exports", KotoFunction::Exports);
    module.add_value("script_dir", Value::Empty);
    module.add_value("script_path", Value::Empty);
    module.add_fn("type", KotoFunction::Type);
    module
}

/// The names in the module are five different ones, so that none of its values hides another.
pub proof fn law_module_names()
    ensures
        koto_module().dom() == set![
            "args"@,
            "exports"@,
            "script_dir"@,
            "script_path"@,
            "type"@,
        ],
        koto_module().len() == 5,
        koto_module()["args"@] == ValueView::Tuple(Seq::empty()),
        koto_module()["exports"@] == ValueView::Function(KotoFunction::Exports),
        koto_module()["script_dir"@] == ValueView::Empty,
        koto_module()["script_path"@] == ValueView::Empty,
        koto_module()["type"@] == ValueView::Function(KotoFunction::Type),
{
    reveal_strlit("args");
    reveal_strlit("exports");
    reveal_strlit("script_dir");
    reveal_strlit("script_path");
    reveal_strlit("type");
    assert("args"@[0] != "exports"@[0]);
    assert("args"@[0] != "type"@[0]);
    assert("exports"@[0] != "type"@[0]);
    assert("script_dir"@.len() != "script_path"@.len());
    assert("script_dir"@.len() != "args"@.len());
    assert("script_dir"@.len() != "exports"@.len());
    assert("script_dir"@.len() != "type"@.len());
    assert("script_path"@.len() != "args"@.len());
    assert("script_path"@.len() != "exports"@.len());
    assert("script_path"@.len() != "type"@.len());
    assert(koto_module().dom() =~= set![
        "args"@,
        "exports"@,
        "script_dir"@,
        "script_path"@,
        "type"@,
    ]);
}

/// The error for arguments that a function does not take.
#[derive(Clone, Debug, PartialEq)]
pub struct UnexpectedArguments {
    /// The name of the function.
    pub function: String,
    /// What the function takes.
    pub expected: String,
    /// The names of the types of the arguments that were given.
    pub unexpected: Vec<String>,
}

/// What names hold.
pub open spec fn names(strings: Seq<String>) -> Seq<Seq<char>> {
    strings.map_values(|string: String| string@)
}

/// Whether a result is what a function gives: `exports` gives the exports whatever the arguments,
/// and `type` gives the name of the type of its argument where there is exactly one.
pub open spec fn is_call_result(
    function: KotoFunction,
    exports: MapHandle,
    arg_types: Seq<Seq<char>>,
    r: Result<Value, UnexpectedArguments>,
) -> bool {
    match (function, r) {
        (KotoFunction::Exports, Ok(value)) => value@ == ValueView::SharedMap(exports),
        (KotoFunction::Type, Ok(value)) => arg_types.len() == 1 && value@ == ValueView::Str(
            arg_types[0],
        ),
        (KotoFunction::Type, Err(error)) => {
            &&& arg_types.len() != 1
            &&& error.function@ == "koto.type"@
            &&& error.expected@ == "a single argument"@
            &&& names(error.unexpected@) == arg_types
        },
        _ => false,
    }
}

/// Calls a function of the module. `exports` is the map that the script exports to, and `arg_types`
/// are the names of the types of the arguments.
pub fn call(function: KotoFunction, exports: MapHandle, arg_types: &Vec<String>) -> (r: Result<
    Value,
    UnexpectedArguments,
>)
    ensures
        is_call_result(function, exports, names(arg_types@), r),
{
    match function {
        KotoFunction::Exports => Ok(Value::SharedMap(exports)),
        KotoFunction::Type => {
            if arg_types.len() == 1 {
                return Ok(Value::Str(arg_types[0].clone()));
            }
            let mut unexpected: Vec<String> = Vec::new();
            let mut i: usize = 0;
            while i < arg_types.len()
                invariant
                    i <= arg_types@.len(),
                    unexpected@.len() == i,
                    forall|k: int| 0 <= k < i ==> (#[trigger] unexpected@[k])@ == arg_types@[k]@,
                decreases arg_types.len() - i,
            {
                unexpected.push(arg_types[i].clone());
                i = i + 1;
            }
            assert(names(unexpected@) =~= names(arg_types@));
            Err(
                UnexpectedArguments {
                    function: "koto.type".to_owned(),
                    expected: "a single argument".to_owned(),
                    unexpected,
                },
            )
        },
    }
}

/// `exports` gives the map of the script, and never fails, whatever its arguments are. `type` gives
/// the name of the type of its argument if it has exactly one, and else an error that names the
/// types of all of them.
pub proof fn law_call(
    exports: MapHandle,
    arg_types: Seq<Seq<char>>,
    exported: Result<Value, UnexpectedArguments>,
    typed: Result<Value, UnexpectedArguments>,
)
    requires
        is_call_result(KotoFunction::Exports, exports, arg_types, exported),
        is_call_result(KotoFunction::Type, exports, arg_types, typed),
    ensures
        exported matches Ok(value) && value@ == ValueView::SharedMap(exports),
        typed is Ok <==> arg_types.len() == 1,
        typed matches Ok(value) ==> value@ == ValueView::Str(arg_types[0]),
        typed matches Err(error) ==> error.function@ == "koto.type"@ && error.unexpected@.len()
            == arg_types.len() && forall|k: int|
            0 <= k < arg_types.len() ==> (#[trigger] error.unexpected@[k])@ == arg_types[k],
{
    if let Err(error) = typed {
        assert forall|k: int| 0 <= k < arg_types.len() implies (#[trigger] error.unexpected@[k])@
            == arg_types[k] by {
            assert(names(error.unexpected@)[k] == error.unexpected@[k]@);
        }
    }
}

} // verus!
