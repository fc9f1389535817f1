//! Command-line flags: pairs of a name that begins with two hyphens, and a value.
use vstd::prelude::*;

use crate::ordered::TextMap;
use crate::text;

verus! {

/// The name of a flag: what follows two hyphens.
pub open spec fn name_of(arg: Seq<char>) -> Option<Seq<char>> {
    if arg.len() >= 2 && arg[0] == '-' && arg[1] == '-' {
        Some(arg.skip(2))
    } else {
        None
    }
}

/// The name of a flag, where the argument is one.
fn flag_name(arg: &str) -> (result: Option<String>)
    ensures
        result.deep_view() == name_of(arg@),
{
    let chars = text::chars_of(arg);
    if chars.len() >= 2 && chars[0] == '-' && chars[1] == '-' {
        let name = text::string_of(&chars, 2, chars.len());
        assert(name@ =~= arg@.skip(2));
        Some(name)
    } else {
        None
    }
}

/// The values of the flags after those of `flags`, or what is wrong with the first pair that is at
/// fault. Of flags with the same name the last counts.
pub open spec fn flags_of(args: Seq<Seq<char>>, flags: Map<Seq<char>, Seq<char>>) -> Result<
    Map<Seq<char>, Seq<char>>,
    Seq<char>,
>
    decreases args.len(),
{
    if args.len() == 0 {
        Ok(flags)
    } else {
        match name_of(args[0]) {
            None => Err("expected --flag, got "@ + args[0]),
            Some(name) => if args.len() == 1 {
                Err("missing value for --"@ + name)
            } else {
                flags_of(args.skip(2), flags.insert(name, args[1]))
            },
        }
    }
}

/// The values of the flags by their names.
pub fn parse_flags(args: &Vec<String>) -> (result: Result<TextMap<String>, String>)
    ensures
        match result {
            Ok(flags) => flags.wf() && flags_of(
                args.deep_view(),
                Map::<Seq<char>, Seq<char>>::empty(),
            ) == Ok::<Map<Seq<char>, Seq<char>>, Seq<char>>(flags@),
            Err(message) => flags_of(args.deep_view(), Map::<Seq<char>, Seq<char>>::empty())
                == Err::<Map<Seq<char>, Seq<char>>, Seq<char>>(message@),
        },
{
    let ghost all = args.deep_view();
    let ghost whole = flags_of(all, Map::<Seq<char>, Seq<char>>::empty());
    let mut flags: TextMap<String> = TextMap::new();
    let mut index: usize = 0;
    assert(all.skip(0) =~= all);
    while index < args.len()
        invariant
            index <= args@.len(),
            all == args.deep_view(),
            whole == flags_of(all, Map::<Seq<char>, Seq<char>>::empty()),
            flags.wf(),
            whole == flags_of(all.skip(index as int), flags@),
        decreases args@.len() - index,
    {
        let ghost rest = all.skip(index as int);
        assert(rest[0] == args@[index as int]@);
        match flag_name(args[index].as_str()) {
            None => {
                let mut message = "expected --flag, got ".to_owned();
                message.append(args[index].as_str());
                return Err(message);
            },
            Some(name) => {
                if index + 1 == args.len() {
                    let mut message = "missing value for --".to_owned();
                    message.append(name.as_str());
                    return Err(message);
                }
                assert(rest[1] == args@[index + 1]@);
                assert(rest.skip(2) =~= all.skip(index + 2));
                flags.insert(name, args[index + 1].clone());
            },
        }
        index = index + 2;
    }
    Ok(flags)
}

/// The value of a flag that has to be there.
pub fn required(flags: &TextMap<String>, key: &str) -> (result: Result<String, String>)
    requires
        flags.wf(),
    ensures
        match result {
            Ok(value) => flags@.contains_key(key@) && value@ == flags@[key@],
            Err(message) => !flags@.contains_key(key@) && message@ == "missing --"@ + key@,
        },
{
    match flags.get(key) {
        Some(value) => Ok(value.clone()),
        None => {
            let mut message = "missing --".to_owned();
            message.append(key);
            Err(message)
        },
    }
}

/// The arguments that give flags their values.
pub open spec fn arguments_of(pairs: Seq<(Seq<char>, Seq<char>)>) -> Seq<Seq<char>>
    decreases pairs.len(),
{
    if pairs.len() == 0 {
        Seq::<Seq<char>>::empty()
    } else {
        seq![seq!['-', '-'] + pairs[0].0, pairs[0].1] + arguments_of(pairs.drop_first())
    }
}

/// The map with the pairs put in one after another.
pub open spec fn with_pairs(
    flags: Map<Seq<char>, Seq<char>>,
    pairs: Seq<(Seq<char>, Seq<char>)>,
) -> Map<Seq<char>, Seq<char>>
    decreases pairs.len(),
{
    if pairs.len() == 0 {
        flags
    } else {
        with_pairs(flags.insert(pairs[0].0, pairs[0].1), pairs.drop_first())
    }
}

/// Flags that are written out as arguments are read back, whatever their names and values.
pub proof fn law_flags_read_back(
    pairs: Seq<(Seq<char>, Seq<char>)>,
    flags: Map<Seq<char>, Seq<char>>,
)
    ensures
        flags_of(arguments_of(pairs), flags) == Ok::<Map<Seq<char>, Seq<char>>, Seq<char>>(
            with_pairs(flags, pairs),
        ),
    decreases pairs.len(),
{
    if pairs.len() > 0 {
        let rest = pairs.drop_first();
        let (name, value) = pairs[0];
        let args = arguments_of(pairs);
        law_flags_read_back(rest, flags.insert(name, value));
        assert(args[0] == seq!['-', '-'] + name);
        assert(args[0].skip(2) =~= name);
        assert(args[1] == value);
        assert(args.skip(2) =~= arguments_of(rest));
    }
}

/// Arguments are read in pairs: one that begins with two hyphens names a flag, and the next is its
/// value, in place of any earlier one. An argument in the place of a name that does not begin with
/// two hyphens is refused, and so is a name that no value follows.
pub proof fn law_reading_flags(
    name: Seq<char>,
    value: Seq<char>,
    arg: Seq<char>,
    rest: Seq<Seq<char>>,
    flags: Map<Seq<char>, Seq<char>>,
)
    requires
        arg.len() < 2 || arg[0] != '-' || arg[1] != '-',
    ensures
        flags_of(Seq::<Seq<char>>::empty(), flags) == Ok::<Map<Seq<char>, Seq<char>>, Seq<char>>(
            flags,
        ),
        flags_of(seq![seq!['-', '-'] + name, value] + rest, flags) == flags_of(
            rest,
            flags.insert(name, value),
        ),
        flags_of(seq![seq!['-', '-'] + name], flags) == Err::<
            Map<Seq<char>, Seq<char>>,
            Seq<char>,
        >("missing value for --"@ + name),
        flags_of(seq![arg] + rest, flags) == Err::<Map<Seq<char>, Seq<char>>, Seq<char>>(
            "expected --flag, got "@ + arg,
        ),
{
    let named = seq!['-', '-'] + name;
    assert(named[0] == '-' && named[1] == '-');
    assert(named.skip(2) =~= name);
    let args = seq![named, value] + rest;
    assert(args[0] == named && args[1] == value);
    assert(args.skip(2) =~= rest);
    assert(seq![named][0] == named);
    assert((seq![arg] + rest)[0] == arg);
}

} // verus!
