//! The decisions around the two parsers: reading the command line, finding
//! the chosen field, and deciding how its value is delivered.
use vstd::prelude::*;
use crate::fields::{Field, FieldModel};
use crate::text::{chars_of, push_char, same_chars, string_of, trim, trim_bounds};

verus! {

/// The options of a run.
#[derive(Debug)]
pub struct Arguments {
    /// Type the selection instead of copying it to the clipboard.
    pub type_selection: bool,
    /// The entry to open directly, without listing the entries and asking
    /// for one.
    pub password: Option<String>,
}

impl Arguments {
    /// The options of a run without flags: the value goes to the clipboard.
    pub fn new() -> (r: Self)
        ensures
            !r.type_selection,
            r.password is None,
    {
        Arguments { type_selection: false, password: None }
    }
}

/// What the command line asks for.
#[derive(Debug)]
pub enum ArgumentsOutcome {
    /// Run with these options.
    Run(Arguments),
    /// Show the usage and stop.
    Help,
    /// Stop on this argument, which is no known flag.
    Unknown(String),
}

/// What an [`ArgumentsOutcome`] stands for.
pub enum ArgumentsModel {
    Run { type_selection: bool, password: Option<Seq<char>> },
    Help,
    Unknown(Seq<char>),
}

impl View for ArgumentsOutcome {
    type V = ArgumentsModel;

    open spec fn view(&self) -> ArgumentsModel {
        match self {
            ArgumentsOutcome::Run(a) => ArgumentsModel::Run {
                type_selection: a.type_selection,
                password: match a.password {
                    Some(p) => Some(p@),
                    None => None,
                },
            },
            ArgumentsOutcome::Help => ArgumentsModel::Help,
            ArgumentsOutcome::Unknown(a) => ArgumentsModel::Unknown(a@),
        }
    }
}

/// `-h` or `--help`.
pub open spec fn is_help_flag(a: Seq<char>) -> bool {
    a == seq!['-', 'h'] || a == seq!['-', '-', 'h', 'e', 'l', 'p']
}

/// `-t` or `--type`.
pub open spec fn is_type_flag(a: Seq<char>) -> bool {
    a == seq!['-', 't'] || a == seq!['-', '-', 't', 'y', 'p', 'e']
}

/// An argument that names an entry rather than a flag.
pub open spec fn is_entry_name(a: Seq<char>) -> bool {
    a.len() > 0 && a[0] != '-'
}

/// The arguments from position `i` on read in order: a help flag stops with
/// `Help`, a type flag turns on typing, the first entry name is the entry to
/// open, and any other argument stops with itself.
pub open spec fn arguments_from(
    args: Seq<Seq<char>>,
    i: int,
    type_selection: bool,
    password: Option<Seq<char>>,
) -> ArgumentsModel
    decreases args.len() - i,
{
    if i < 0 || i >= args.len() {
        ArgumentsModel::Run { type_selection, password }
    } else if is_help_flag(args[i]) {
        ArgumentsModel::Help
    } else if is_type_flag(args[i]) {
        arguments_from(args, i + 1, true, password)
    } else if is_entry_name(args[i]) && password is None {
        arguments_from(args, i + 1, type_selection, Some(args[i]))
    } else {
        ArgumentsModel::Unknown(args[i])
    }
}

fn is_flag(a: &Vec<char>, short: char, long: &Vec<char>) -> (r: bool)
    ensures
        r == (a@ == seq!['-', short] || a@ == long@),
{
    let s = vec!['-', short];
    assert(s@ =~= seq!['-', short]);
    assert(a@.subrange(0, a.len() as int) =~= a@);
    same_chars(a, 0, a.len(), &s) || same_chars(a, 0, a.len(), long)
}

/// Reads the command line, the program's name left out.
pub fn parse_arguments(args: &Vec<String>) -> (r: ArgumentsOutcome)
    ensures
        r@ == arguments_from(args@.map_values(|a: String| a@), 0, false, None),
{
    let ghost views = args@.map_values(|a: String| a@);
    let help = vec!['-', '-', 'h', 'e', 'l', 'p'];
    let typing = vec!['-', '-', 't', 'y', 'p', 'e'];
    assert(help@ =~= seq!['-', '-', 'h', 'e', 'l', 'p']);
    assert(typing@ =~= seq!['-', '-', 't', 'y', 'p', 'e']);
    let mut arguments = Arguments::new();
    let mut i: usize = 0;
    while i < args.len()
        invariant
            i <= args.len(),
            views == args@.map_values(|a: String| a@),
            help@ == seq!['-', '-', 'h', 'e', 'l', 'p'],
            typing@ == seq!['-', '-', 't', 'y', 'p', 'e'],
            arguments_from(views, 0, false, None) == arguments_from(
                views,
                i as int,
                arguments.type_selection,
                match arguments.password {
                    Some(p) => Some(p@),
                    None => None,
                },
            ),
        decreases args.len() - i,
    {
        let a = chars_of(args[i].as_str());
        assert(a@ == views[i as int]);
        if is_flag(&a, 'h', &help) {
            return ArgumentsOutcome::Help;
        } else if is_flag(&a, 't', &typing) {
            arguments.type_selection = true;
        } else if a.len() > 0 && a[0] != '-' && arguments.password.is_none() {
            arguments.password = Some(args[i].clone());
        } else {
            return ArgumentsOutcome::Unknown(args[i].clone());
        }
        i = i + 1;
    }
    ArgumentsOutcome::Run(arguments)
}

/// Where the chosen value goes.
#[derive(Debug)]
pub enum Delivery {
    /// Copy the value to the clipboard.
    Clipboard(String),
    /// Type the value where the input focus is.
    Type(String),
}

/// Why no value can be delivered.
#[derive(Debug)]
pub enum SelectError {
    /// No field has the chosen key.
    NoSuchField,
    /// The field holds several lines, and such a value is never typed.
    MultilineNotTypeable { key: String },
}

/// The position of the first field whose key is `key`, if any.
pub open spec fn first_with_key(fields: Seq<FieldModel>, key: Seq<char>, i: int) -> Option<int>
    decreases fields.len() - i,
{
    if i < 0 || i >= fields.len() {
        None
    } else if fields[i].key == key {
        Some(i)
    } else {
        first_with_key(fields, key, i + 1)
    }
}

/// The position of the first field with the given key.
pub fn find_field(fields: &Vec<Field>, key: &str) -> (r: Option<usize>)
    ensures
        match r {
            Some(i) => i < fields.len() && first_with_key(
                fields@.map_values(|f: Field| f@),
                key@,
                0,
            ) == Some(i as int),
            None => first_with_key(fields@.map_values(|f: Field| f@), key@, 0) is None,
        },
{
    let ghost views = fields@.map_values(|f: Field| f@);
    let k = chars_of(key);
    let mut i: usize = 0;
    while i < fields.len()
        invariant
            i <= fields.len(),
            views == fields@.map_values(|f: Field| f@),
            k@ == key@,
            first_with_key(views, key@, 0) == first_with_key(views, key@, i as int),
        decreases fields.len() - i,
    {
        let c = chars_of(fields[i].key.as_str());
        assert(views[i as int].key == c@);
        if same_chars(&c, 0, c.len(), &k) {
            assert(c@.subrange(0, c.len() as int) =~= c@);
            return Some(i);
        }
        assert(c@.subrange(0, c.len() as int) =~= c@);
        i = i + 1;
    }
    None
}

/// Decides how a field's value is delivered: typed when `type_selection` is
/// set, else copied to the clipboard. A value of several lines is never
/// typed: that is refused before anything is sent.
pub fn deliver(field: &Field, type_selection: bool) -> (r: Result<Delivery, SelectError>)
    ensures
        type_selection && field.multiline <==> r matches Err(SelectError::MultilineNotTypeable { .. }),
        match r {
            Ok(Delivery::Clipboard(v)) => !type_selection && v@ == field.value@,
            Ok(Delivery::Type(v)) => type_selection && !field.multiline && v@ == field.value@,
            Err(SelectError::MultilineNotTypeable { key }) => key@ == field.key@,
            Err(SelectError::NoSuchField) => false,
        },
{
    if type_selection {
        if field.multiline {
            Err(SelectError::MultilineNotTypeable { key: field.key.clone() })
        } else {
            Ok(Delivery::Type(field.value.clone()))
        }
    } else {
        Ok(Delivery::Clipboard(field.value.clone()))
    }
}

/// Finds the field with the chosen key, the first one if several have it,
/// and decides how its value is delivered.
pub fn resolve_selection(fields: &Vec<Field>, selected_key: &str, type_selection: bool) -> (r:
    Result<Delivery, SelectError>)
    ensures
        match first_with_key(fields@.map_values(|f: Field| f@), selected_key@, 0) {
            None => r matches Err(SelectError::NoSuchField),
            Some(i) => {
                let f = fields@[i];
                &&& (type_selection && f.multiline <==> r matches Err(
                    SelectError::MultilineNotTypeable { .. },
                ))
                &&& match r {
                    Ok(Delivery::Clipboard(v)) => !type_selection && v@ == f.value@,
                    Ok(Delivery::Type(v)) => type_selection && !f.multiline && v@ == f.value@,
                    Err(SelectError::MultilineNotTypeable { key }) => key@ == f.key@,
                    Err(SelectError::NoSuchField) => false,
                }
            },
        },
{
    match find_field(fields, selected_key) {
        None => Err(SelectError::NoSuchField),
        Some(i) => deliver(&fields[i], type_selection),
    }
}

/// The keys of the fields, in order.
pub fn field_keys(fields: &Vec<Field>) -> (r: Vec<String>)
    ensures
        r.len() == fields.len(),
        forall|i: int| 0 <= i < r.len() ==> (#[trigger] r[i])@ == fields[i].key@,
{
    let mut r: Vec<String> = Vec::new();
    let mut i: usize = 0;
    while i < fields.len()
        invariant
            i <= fields.len(),
            r.len() == i,
            forall|j: int| 0 <= j < i ==> (#[trigger] r[j])@ == fields[j].key@,
        decreases fields.len() - i,
    {
        r.push(fields[i].key.clone());
        i = i + 1;
    }
    r
}

/// The options joined by line feeds.
pub open spec fn join_options(values: Seq<Seq<char>>) -> Seq<char>
    decreases values.len(),
{
    if values.len() == 0 {
        Seq::empty()
    } else if values.len() == 1 {
        values[0]
    } else {
        join_options(values.drop_last()) + seq!['\n'] + values.last()
    }
}

/// The text handed to the picker: one option per line.
pub fn picker_input(values: &Vec<String>) -> (r: String)
    ensures
        r@ == join_options(values@.map_values(|v: String| v@)),
{
    let ghost views = values@.map_values(|v: String| v@);
    let mut r = String::new();
    let mut i: usize = 0;
    assert(views.take(0) =~= Seq::<Seq<char>>::empty());
    while i < values.len()
        invariant
            i <= values.len(),
            views == values@.map_values(|v: String| v@),
            r@ == join_options(views.take(i as int)),
        decreases values.len() - i,
    {
        assert(views.take(i + 1).drop_last() =~= views.take(i as int));
        if i > 0 {
            push_char(&mut r, '\n');
        }
        r.append(values[i].as_str());
        i = i + 1;
    }
    assert(views.take(values.len() as int) =~= views);
    r
}

/// The option that the picker printed, without surrounding whitespace.
pub fn picker_choice(output: &str) -> (r: String)
    ensures
        r@ == trim(output@),
{
    let s = chars_of(output);
    let (a, b) = trim_bounds(&s, 0, s.len());
    assert(s@.subrange(0, s.len() as int) =~= s@);
    string_of(&s, a, b)
}

} // verus!
