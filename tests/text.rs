use stgit::command::{get_command, make_cmd_err, CommandCategory, TemporaryMessage};
use stgit::error::TxError;
use stgit::manpage::write_underlined;
use stgit::text::decimal_string;

#[test]
fn decimal_strings() {
    assert_eq!(decimal_string(0), "0");
    assert_eq!(decimal_string(7), "7");
    assert_eq!(decimal_string(10), "10");
    assert_eq!(decimal_string(1234567890), "1234567890");
    assert_eq!(decimal_string(u64::MAX), "18446744073709551615");
}

#[test]
fn underlined_heading() {
    let mut page = String::from("x\n");
    write_underlined(&mut page, "NAME", '-');
    assert_eq!(page, "x\nNAME\n----\n");
    let mut page = String::new();
    write_underlined(&mut page, "stg-ä(1)", '=');
    assert_eq!(page, "stg-ä(1)\n========\n");
}

#[test]
fn command_error_trims_and_reads_leniently() {
    let e = make_cmd_err("write-tree", b"fatal: bad index\n\n");
    assert_eq!(e, TxError::GitCommand("write-tree".to_string(), "fatal: bad index".to_string()));
    let e = make_cmd_err("apply", &[0x61, 0xff, 0x20]);
    assert_eq!(e, TxError::GitCommand("apply".to_string(), "a\u{fffd}".to_string()));
}

#[test]
fn spill_command_entry() {
    let (name, category) = get_command();
    assert_eq!(name, "spill");
    assert_eq!(category, CommandCategory::PatchManipulation);
}

#[test]
fn temporary_message_name() {
    let m = TemporaryMessage::for_process(4242);
    assert_eq!(m.filename(), ".stgit-msg-temp-4242");
}

use stgit::color::{parse_color_choice, str_choice, ColorChoice};
use stgit::command::spill_message;
use stgit::manpage::{make_links, paragraphs, wrap};

fn args(v: &[&str]) -> Vec<Option<String>> {
    v.iter().map(|s| Some(s.to_string())).collect()
}

#[test]
fn paragraphs_split_on_blank_lines() {
    assert_eq!(paragraphs("one\ntwo\n\nthree\n\n\nfour"), vec!["one\ntwo", "three", "\nfour"]);
    assert!(paragraphs("").is_empty());
    assert_eq!(paragraphs("a\n\n"), vec!["a"]);
}

#[test]
fn wrap_breaks_at_the_last_space_within_width() {
    assert_eq!(wrap("aaa bbb ccc ddd", 8), vec!["aaa bbb", "ccc ddd"]);
    assert_eq!(wrap("short", 80), vec!["short"]);
    assert_eq!(wrap("aaaaaaaaaa bb", 4), vec!["aaaaaaaaaa bb"]);
    assert!(wrap("", 10).is_empty());
    // Widths count bytes: each 'é' takes two.
    assert_eq!(wrap("éé éé éé", 6), vec!["éé", "éé éé"]);
}

#[test]
fn links_to_manual_pages() {
    assert_eq!(make_links("see git-rebase(1) now"), "see linkgit:git-rebase[1] now");
    assert_eq!(make_links("see git-rebase(1)."), "see linkgit:git-rebase[1].");
    assert_eq!(make_links("run 'git commit' first"), "run linkgit:git-commit[1] first");
    assert_eq!(make_links("use 'stg push', then"), "use linkstg:push[], then");
    assert_eq!(make_links("plain git-stuff text"), "plain git-stuff text");
    assert_eq!(make_links("end 'git"), "end 'git");
}

#[test]
fn color_choice_from_arguments() {
    assert_eq!(str_choice("ansi"), Some(ColorChoice::AlwaysAnsi));
    assert_eq!(str_choice("sometimes"), None);
    assert_eq!(parse_color_choice(&args(&["stg", "--color", "never", "push"])), Some(ColorChoice::Never));
    assert_eq!(parse_color_choice(&args(&["stg", "--color=always", "--color=bad"])), Some(ColorChoice::Always));
    assert_eq!(parse_color_choice(&args(&["stg", "--", "--color=always"])), None);
    assert_eq!(parse_color_choice(&args(&["stg", "--color"])), None);
    let mut v = args(&["stg", "--color"]);
    v.push(None);
    v.push(Some("--color=auto".to_string()));
    assert_eq!(parse_color_choice(&v), Some(ColorChoice::Auto));
}

#[test]
fn spill_reflog_message() {
    assert_eq!(spill_message("p1", None), "spill p1");
    assert_eq!(spill_message("p1", Some("why")), "spill p1\n\nwhy");
}

use stgit::manpage::{add_options, ArgDoc};

fn arg_doc(id: &str, values: Option<&[&str]>, shorts: &[char], longs: &[&str], help: &str) -> ArgDoc {
    ArgDoc {
        id: id.to_string(),
        hidden: false,
        positional: false,
        takes_values: values.is_some(),
        value_names: values.map(|v| v.iter().map(|s| s.to_string()).collect()),
        possible_values: vec![],
        shorts: shorts.to_vec(),
        longs: longs.iter().map(|s| s.to_string()).collect(),
        require_equals: false,
        help: help.to_string(),
    }
}

#[test]
fn options_section() {
    let mut mode = arg_doc("mode", None, &[], &["mode"], "Pick.");
    mode.takes_values = true;
    mode.require_equals = true;
    mode.possible_values = vec![("a".to_string(), false), ("b".to_string(), true), ("c".to_string(), false)];
    let mut hidden = arg_doc("secret", None, &['s'], &["secret"], "Nothing.");
    hidden.hidden = true;
    let args = vec![
        arg_doc("help", None, &['h'], &["help"], "Print help"),
        arg_doc("name", Some(&["name"]), &['n'], &["name"], "Use <name> for the squashed patch"),
        arg_doc("reset", None, &['r'], &["reset"], "Also reset the index\n\nSee 'git reset' too."),
        hidden,
        mode,
    ];
    let mut section = String::new();
    add_options(&mut section, &args, "OPTIONS", '-');
    assert_eq!(
        section,
        "OPTIONS\n-------\n\
         -n <name>::\n--name=<name>::\n    Use <name> for the squashed patch\n\n\
         -r::\n--reset::\n    Also reset the index\n+\nSee linkgit:git-reset[1] too.\n\n\
         --mode[=(a|c)]::\n    Pick.\n\n"
    );
}

#[test]
fn options_section_without_entries() {
    let mut section = String::from("x");
    add_options(&mut section, &vec![arg_doc("color", None, &[], &["color"], "When")], "OPTIONS", '-');
    assert_eq!(section, "x");
}

use stgit::manpage::{synopsis_text, usage_lines};

#[test]
fn usage_lines_from_rendered_usage() {
    let lines = usage_lines("Usage: stg squash [OPTIONS] <patch>...\n       stg squash --help\n\n").unwrap();
    assert_eq!(lines, vec!["stg squash [OPTIONS] <patch>...", "stg squash --help"]);
    assert!(usage_lines("stg squash").is_none());
}

#[test]
fn synopsis_quotes_the_command_and_escapes_options() {
    let lines = vec!["stg squash [OPTIONS] <-x>".to_string(), "stg squash --help".to_string()];
    let text = synopsis_text(&lines, &vec!["stg".to_string()]).unwrap();
    assert_eq!(text, "'stg squash' [OPTIONS] \\<-x>\n'stg squash' --help\n");
    let nested = synopsis_text(&vec!["stg branch create <name>".to_string()], &vec!["stg".to_string(), "branch".to_string()]);
    assert_eq!(nested.unwrap(), "'stg branch create' <name>\n");
    assert!(synopsis_text(&vec!["git squash".to_string()], &vec!["stg".to_string()]).is_none());
    assert!(synopsis_text(&vec!["stg".to_string()], &vec!["stg".to_string()]).is_none());
}

use stgit::manpage::add_command_stanza;

#[test]
fn command_stanza() {
    let mut section = String::new();
    add_command_stanza(&mut section, &vec!["branch".to_string()], "create", "Create a branch\n\nMore text.");
    assert_eq!(section, "branch create::\n    Create a branch\n+\nMore text.\n\n");
    let mut top = String::from("> ");
    add_command_stanza(&mut top, &vec![], "man", "Generate pages");
    assert_eq!(top, "> man::\n    Generate pages\n\n");
}

use stgit::command::parse_conflicts;

#[test]
fn conflict_lines_of_merge_output() {
    let out = b"Auto-merging a.txt\nCONFLICT (content): Merge conflict in a.txt\nCONFLICT x\nCONFLICTED\n".to_vec();
    let lines = parse_conflicts(&out);
    assert_eq!(lines, vec![b"CONFLICT (content): Merge conflict in a.txt".to_vec(), b"CONFLICT x".to_vec()]);
    assert!(parse_conflicts(&b"clean".to_vec()).is_empty());
    assert_eq!(parse_conflicts(&b"CONFLICT last".to_vec()), vec![b"CONFLICT last".to_vec()]);
}

use stgit::manpage::generate_asciidoc;

#[test]
fn whole_page() {
    let page = generate_asciidoc("spill", "Spill changes", "'stg spill' [OPTIONS]\n", "Spill changes.\n\n  indented", None, &vec![]);
    assert_eq!(
        page,
        "stg-spill(1)\n============\n\nNAME\n----\nstg-spill - Spill changes\n\n\
         SYNOPSIS\n--------\n[verse]\n'stg spill' [OPTIONS]\n\n\
         DESCRIPTION\n-----------\n\nSpill changes.\n\n  indented\n\n\
         StGit\n-----\nPart of the StGit suite - see linkman:stg[1]\n"
    );
    let with_commands = generate_asciidoc("x", "X", "", "X.", Some("a::\n    A\n\n"), &vec![]);
    assert!(with_commands.contains("COMMANDS\n--------\n\na::\n    A\n\n"));
}

#[test]
fn help_lines_end_at_newlines() {
    let mut s = String::new();
    add_command_stanza(&mut s, &vec![], "c", "a\r\nb\n");
    assert_eq!(s, "c::\n    a\n    b\n\n");
}
