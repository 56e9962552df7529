//! Command-line options: a flag and the argument after it.
use vstd::prelude::*;

use crate::number::{decimal, digits, lemma_decimal_read_back, parse_decimal};
use crate::text::{chars_of, spells};

verus! {

/// The arguments as texts.
pub open spec fn texts(args: Seq<String>) -> Seq<Seq<char>> {
    args.map_values(|a: String| a@)
}

/// The argument after the first flag at or after index `from`; `None` when
/// there is no such flag, or nothing follows it.
pub open spec fn after_first(
    args: Seq<Seq<char>>,
    long: Seq<char>,
    short: Seq<char>,
    from: int,
) -> Option<Seq<char>>
    decreases args.len() - from,
{
    if from >= args.len() {
        None
    } else if args[from] == long || args[from] == short {
        if from + 1 < args.len() {
            Some(args[from + 1])
        } else {
            None
        }
    } else {
        after_first(args, long, short, from + 1)
    }
}

/// The argument after the last flag that has one, among the arguments with
/// an index below `end`, the program's name left out.
pub open spec fn after_last(
    args: Seq<Seq<char>>,
    long: Seq<char>,
    short: Seq<char>,
    end: int,
) -> Option<Seq<char>>
    decreases end,
{
    if end <= 1 {
        None
    } else if (args[end - 1] == long || args[end - 1] == short) && end < args.len() {
        Some(args[end])
    } else {
        after_last(args, long, short, end - 1)
    }
}

/// The number that an option's value denotes, when it is a port number; else
/// the default.
pub open spec fn port_or(value: Option<Seq<char>>, default: u16) -> nat {
    match value {
        Some(text) => match parse_decimal(text, u16::MAX as nat) {
            Some(n) => n,
            None => default as nat,
        },
        None => default as nat,
    }
}

/// The text of an option's value, or the default.
pub open spec fn text_or(value: Option<Seq<char>>, default: Seq<char>) -> Seq<char> {
    match value {
        Some(text) => text,
        None => default,
    }
}

/// The text of an argument that may be missing.
pub open spec fn text_of(arg: Option<&String>) -> Option<Seq<char>> {
    match arg {
        Some(s) => Some(s@),
        None => None,
    }
}

/// Whether an argument is the given text.
pub fn is(arg: &String, text: &str) -> (r: bool)
    ensures
        r == (arg@ == text@),
{
    spells(chars_of(arg.as_str()).as_slice(), text)
}

/// The argument after the first flag at or after index `from`.
pub fn first_value<'a>(
    args: &'a [String],
    long: &str,
    short: &str,
    from: usize,
) -> (r: Option<&'a String>)
    ensures
        text_of(r) == after_first(texts(args@), long@, short@, from as int),
{
    let mut i: usize = from;
    while i < args.len()
        invariant
            from <= i,
            after_first(texts(args@), long@, short@, from as int) == after_first(
                texts(args@),
                long@,
                short@,
                i as int,
            ),
        decreases args.len() - i,
    {
        if is(&args[i], long) || is(&args[i], short) {
            return if i + 1 < args.len() {
                Some(&args[i + 1])
            } else {
                None
            };
        }
        i += 1;
    }
    None
}

/// The argument after the last flag that has one, the program's name left
/// out.
pub fn last_value<'a>(args: &'a [String], long: &str, short: &str) -> (r: Option<&'a String>)
    ensures
        text_of(r) == after_last(texts(args@), long@, short@, args@.len() as int),
{
    let mut end: usize = args.len();
    while end > 1
        invariant
            end <= args.len(),
            after_last(texts(args@), long@, short@, args@.len() as int) == after_last(
                texts(args@),
                long@,
                short@,
                end as int,
            ),
        decreases end,
    {
        if end < args.len() && (is(&args[end - 1], long) || is(&args[end - 1], short)) {
            return Some(&args[end]);
        }
        end -= 1;
    }
    None
}

/// The port that an option's value denotes, or the default.
pub fn port(value: Option<&String>, default: u16) -> (r: u16)
    ensures
        r == port_or(text_of(value), default),
{
    match value {
        Some(text) => match decimal(chars_of(text.as_str()).as_slice(), u16::MAX as u64) {
            Some(n) => n as u16,
            None => default,
        },
        None => default,
    }
}

/// The text of an option's value, or the default.
pub fn text(value: Option<&String>, default: &str) -> (r: String)
    ensures
        r@ == text_or(text_of(value), default@),
{
    match value {
        Some(text) => text.clone(),
        None => default.to_string(),
    }
}

/// Whether `arg` is among the arguments.
pub fn has_arg(args: &[String], arg: &str) -> (r: bool)
    ensures
        r == texts(args@).contains(arg@),
{
    let mut i: usize = 0;
    while i < args.len()
        invariant
            i <= args.len(),
            forall|j: int| 0 <= j < i ==> #[trigger] texts(args@)[j] != arg@,
        decreases args.len() - i,
    {
        if is(&args[i], arg) {
            assert(texts(args@)[i as int] == arg@);
            return true;
        }
        i += 1;
    }
    false
}

/// A port given in decimal after the first flag is the port that is read,
/// whatever else is given.
pub proof fn lemma_first_port(
    args: Seq<Seq<char>>,
    long: Seq<char>,
    short: Seq<char>,
    from: int,
    flag: int,
    number: u16,
    default: u16,
)
    requires
        from <= flag < args.len() - 1,
        args[flag] == long || args[flag] == short,
        forall|i: int| from <= i < flag ==> #[trigger] args[i] != long && args[i] != short,
        args[flag + 1] == digits(number as nat, 10),
    ensures
        port_or(after_first(args, long, short, from), default) == number,
    decreases flag - from,
{
    if from < flag {
        lemma_first_port(args, long, short, from + 1, flag, number, default);
    } else {
        lemma_decimal_read_back(number as nat, u16::MAX as nat);
    }
}

/// A port given in decimal after the last flag that has a value is the port
/// that is read, whatever else is given.
pub proof fn lemma_last_port(
    args: Seq<Seq<char>>,
    long: Seq<char>,
    short: Seq<char>,
    end: int,
    flag: int,
    number: u16,
    default: u16,
)
    requires
        1 <= flag < end <= args.len(),
        flag + 1 < args.len(),
        args[flag] == long || args[flag] == short,
        forall|i: int|
            flag < i < end && i + 1 < args.len() ==> #[trigger] args[i] != long && args[i] != short,
        args[flag + 1] == digits(number as nat, 10),
    ensures
        port_or(after_last(args, long, short, end), default) == number,
    decreases end,
{
    if flag < end - 1 {
        lemma_last_port(args, long, short, end - 1, flag, number, default);
    } else {
        lemma_decimal_read_back(number as nat, u16::MAX as nat);
    }
}

/// The value of the first flag is the argument after it, whatever that is and
/// whatever else is given; a flag that comes last has none, and without a flag
/// there is none.
pub proof fn lemma_after_first(
    args: Seq<Seq<char>>,
    long: Seq<char>,
    short: Seq<char>,
    from: int,
    flag: int,
)
    requires
        0 <= from <= flag <= args.len(),
        forall|i: int| from <= i < flag ==> #[trigger] args[i] != long && args[i] != short,
        flag < args.len() ==> args[flag] == long || args[flag] == short,
    ensures
        after_first(args, long, short, from) == (if flag + 1 < args.len() {
            Some(args[flag + 1])
        } else {
            None
        }),
    decreases flag - from,
{
    if from < flag {
        lemma_after_first(args, long, short, from + 1, flag);
    }
}

/// The value of the last flag that has one is the argument after it, whatever
/// that is and whatever else is given; without such a flag there is none, and
/// the name of the program, at index zero, is no flag.
pub proof fn lemma_after_last(
    args: Seq<Seq<char>>,
    long: Seq<char>,
    short: Seq<char>,
    end: int,
    flag: int,
)
    requires
        0 <= end <= args.len(),
        flag == 0 || 1 <= flag < end,
        forall|i: int|
            flag < i < end && i + 1 < args.len() ==> #[trigger] args[i] != long && args[i]
                != short,
        flag >= 1 ==> flag + 1 < args.len() && (args[flag] == long || args[flag] == short),
    ensures
        after_last(args, long, short, end) == (if flag >= 1 {
            Some(args[flag + 1])
        } else {
            None
        }),
    decreases end,
{
    if end > 1 && flag < end - 1 {
        lemma_after_last(args, long, short, end - 1, flag);
    }
}

/// A value that is a port number is the port, and any other value, or none, gives
/// the default; a text is taken as it is.
pub proof fn lemma_value(value: Seq<char>, default: u16, text: Seq<char>)
    ensures
        port_or(None, default) == default,
        parse_decimal(value, 65535) is Some ==> port_or(Some(value), default) == parse_decimal(
            value,
            65535,
        )->0,
        parse_decimal(value, 65535) is None ==> port_or(Some(value), default) == default,
        text_or(Some(value), text) == value,
        text_or(None, text) == text,
{
}

/// Arguments as contracts speak of them are their texts, in order.
pub proof fn lemma_views(args: Seq<String>, i: int)
    requires
        0 <= i < args.len(),
    ensures
        texts(args).len() == args.len(),
        texts(args)[i] == args[i]@,
        text_of(Some(&args[i])) == Some(args[i]@),
        text_of(None) is None,
{
}

/// The first flag, from index `from` on, stands at `flag`; there is none when
/// `flag` is no index of an argument.
pub open spec fn first_flag(
    args: Seq<Seq<char>>,
    long: Seq<char>,
    short: Seq<char>,
    from: int,
    flag: int,
) -> bool {
    &&& 0 <= from <= flag
    &&& flag < args.len() ==> args[flag] == long || args[flag] == short
    &&& forall|i: int|
        from <= i < flag && i < args.len() ==> #[trigger] args[i] != long && args[i] != short
}

/// The last flag that has a value stands at `flag`, from index one on; there is
/// none when `flag` is zero.
pub open spec fn last_flag(
    args: Seq<Seq<char>>,
    long: Seq<char>,
    short: Seq<char>,
    flag: int,
) -> bool {
    &&& flag == 0 || 1 <= flag < args.len() - 1 && (args[flag] == long || args[flag] == short)
    &&& forall|i: int|
        flag < i < args.len() - 1 ==> #[trigger] args[i] != long && args[i] != short
}

/// The argument after a flag.
pub open spec fn follower(args: Seq<Seq<char>>, flag: int) -> Option<Seq<char>> {
    if 0 <= flag < args.len() - 1 {
        Some(args[flag + 1])
    } else {
        None
    }
}

/// The number that a value denotes as a port; else the default.
pub open spec fn as_port(value: Option<Seq<char>>, default: nat) -> nat {
    if value is Some && parse_decimal(value->0, 65535) is Some {
        parse_decimal(value->0, 65535)->0
    } else {
        default
    }
}

/// The value of an option is what follows its first flag.
pub proof fn lemma_first_flag(
    args: Seq<Seq<char>>,
    long: Seq<char>,
    short: Seq<char>,
    from: int,
    flag: int,
    default: u16,
    text: Seq<char>,
)
    requires
        first_flag(args, long, short, from, flag),
    ensures
        after_first(args, long, short, from) == follower(args, flag),
        port_or(after_first(args, long, short, from), default) == as_port(
            follower(args, flag),
            default as nat,
        ),
        text_or(after_first(args, long, short, from), text) == (if flag + 1 < args.len() {
            args[flag + 1]
        } else {
            text
        }),
{
    if from <= args.len() {
        let at = if flag < args.len() {
            flag
        } else {
            args.len() as int
        };
        lemma_after_first(args, long, short, from, at);
    }
}

/// The value of an option is what follows its last flag that has a value.
pub proof fn lemma_last_flag(
    args: Seq<Seq<char>>,
    long: Seq<char>,
    short: Seq<char>,
    flag: int,
    default: u16,
    text: Seq<char>,
)
    requires
        last_flag(args, long, short, flag),
    ensures
        port_or(after_last(args, long, short, args.len() as int), default) == (if flag == 0 {
            default as nat
        } else {
            as_port(follower(args, flag), default as nat)
        }),
        text_or(after_last(args, long, short, args.len() as int), text) == (if flag == 0 {
            text
        } else {
            args[flag + 1]
        }),
{
    lemma_after_last(args, long, short, args.len() as int, flag);
}

} // verus!
