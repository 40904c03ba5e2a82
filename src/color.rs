use vstd::prelude::*;
use vstd::string::{StrSliceExecFns, StringExecFns};

verus! {

/// When to color output.
#[derive(Debug, Clone, Copy, PartialEq, Eq, Structural)]
pub enum ColorChoice {
    Always,
    AlwaysAnsi,
    Auto,
    Never,
}

/// The choice that a `--color` value names, if any.
pub open spec fn choice_named(s: Seq<char>) -> Option<ColorChoice> {
    if s == "always"@ {
        Some(ColorChoice::Always)
    } else if s == "ansi"@ {
        Some(ColorChoice::AlwaysAnsi)
    } else if s == "auto"@ {
        Some(ColorChoice::Auto)
    } else if s == "never"@ {
        Some(ColorChoice::Never)
    } else {
        None
    }
}

/// `acc`, or the choice that `value` names where it names one.
pub open spec fn choose_color(acc: Option<ColorChoice>, value: Seq<char>) -> Option<ColorChoice> {
    match choice_named(value) {
        Some(c) => Some(c),
        None => acc,
    }
}

/// The option word with its value attached.
pub open spec fn color_eq() -> Seq<char> {
    "--color="@
}

/// The choice left after reading `args` from the front, starting with `acc`:
/// reading stops at `--`; `--color V` and `--color=V` set the choice where `V`
/// names one; an argument that is not text (`None`) is skipped.
pub open spec fn scan_colors(args: Seq<Option<String>>, acc: Option<ColorChoice>) -> Option<
    ColorChoice,
>
    decreases args.len(),
{
    if args.len() == 0 {
        acc
    } else {
        match args[0] {
            None => scan_colors(args.drop_first(), acc),
            Some(a) => if a@ == "--"@ {
                acc
            } else if a@ == "--color"@ {
                if args.len() >= 2 {
                    match args[1] {
                        Some(v) => scan_colors(args.subrange(2, args.len() as int), choose_color(acc, v@)),
                        None => scan_colors(args.subrange(2, args.len() as int), acc),
                    }
                } else {
                    acc
                }
            } else if a@.len() >= 8 && a@.subrange(0, 8) == color_eq() {
                scan_colors(args.drop_first(), choose_color(acc, a@.subrange(8, a@.len() as int)))
            } else {
                scan_colors(args.drop_first(), acc)
            },
        }
    }
}

/// The choice that the `--color` value `s` names, if any.
pub fn str_choice(s: &str) -> (r: Option<ColorChoice>)
    ensures
        r == choice_named(s@),
{
    let s = String::from_str(s);
    if s == String::from_str("always") {
        Some(ColorChoice::Always)
    } else if s == String::from_str("ansi") {
        Some(ColorChoice::AlwaysAnsi)
    } else if s == String::from_str("auto") {
        Some(ColorChoice::Auto)
    } else if s == String::from_str("never") {
        Some(ColorChoice::Never)
    } else {
        None
    }
}

/// Whether `a` starts with `--color=`.
fn has_color_eq(a: &str) -> (r: bool)
    ensures
        r == (a@.len() >= 8 && a@.subrange(0, 8) == color_eq()),
{
    if a.unicode_len() < 8 {
        return false;
    }
    let head = String::from_str(a.substring_char(0, 8));
    head == String::from_str("--color=")
}

/// The `--color` choice given in `args` (each argument as text, or `None`
/// where it is not), read before the full command line is parsed: the last
/// valid one before `--` wins.
pub fn parse_color_choice(args: &Vec<Option<String>>) -> (r: Option<ColorChoice>)
    ensures
        r == scan_colors(args@, None),
{
    let mut choice: Option<ColorChoice> = None;
    let mut i: usize = 0;
    proof {
        assert(args@.subrange(0, args@.len() as int) =~= args@);
    }
    while i < args.len()
        invariant
            i <= args@.len(),
            scan_colors(args@, None) == scan_colors(
                args@.subrange(i as int, args@.len() as int),
                choice,
            ),
        decreases args@.len() - i,
    {
        let ghost rest = args@.subrange(i as int, args@.len() as int);
        proof {
            assert(rest[0] == args@[i as int]);
            assert(rest.drop_first() =~= args@.subrange(i + 1, args@.len() as int));
        }
        match &args[i] {
            None => {
                i = i + 1;
            },
            Some(a) => {
                if *a == String::from_str("--") {
                    return choice;
                } else if *a == String::from_str("--color") {
                    if i + 1 < args.len() {
                        proof {
                            assert(rest[1] == args@[i + 1]);
                            assert(rest.subrange(2, rest.len() as int) =~= args@.subrange(
                                i + 2,
                                args@.len() as int,
                            ));
                        }
                        if let Some(v) = &args[i + 1] {
                            if let Some(c) = str_choice(v.as_str()) {
                                choice = Some(c);
                            }
                        }
                        i = i + 2;
                    } else {
                        return choice;
                    }
                } else if has_color_eq(a.as_str()) {
                    let n = a.as_str().unicode_len();
                    let value = a.as_str().substring_char(8, n);
                    if let Some(c) = str_choice(value) {
                        choice = Some(c);
                    }
                    i = i + 1;
                } else {
                    i = i + 1;
                }
            },
        }
    }
    choice
}

} // verus!
