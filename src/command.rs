use vstd::prelude::*;
use vstd::string::StringExecFns;

use crate::error::TxError;
use crate::text::{decimal, decimal_string, lossy_of, lossy_text, trim_end, trim_end_of};

verus! {

/// The group a command is listed under.
#[derive(Debug, Clone, Copy, PartialEq, Eq, Structural)]
pub enum CommandCategory {
    PatchInspection,
    PatchManipulation,
    StackInspection,
    StackManipulation,
    Administration,
}

/// The name and category of the `spill` command, which moves the changes of
/// the topmost patch back into the worktree.
pub fn get_command() -> (r: (String, CommandCategory))
    ensures
        r.0@ == "spill"@,
        r.1 == CommandCategory::PatchManipulation,
{
    (String::from_str("spill"), CommandCategory::PatchManipulation)
}

/// The error for a failed outside command: its name, and what it printed on
/// stderr, read leniently and without trailing whitespace.
pub fn make_cmd_err(command_name: &str, stderr: &[u8]) -> (r: TxError)
    ensures
        r matches TxError::GitCommand(name, text) && name@ == command_name@ && text@ == trim_end_of(
            lossy_of(stderr@),
        ),
{
    let text = lossy_text(stderr);
    let text = trim_end(text.as_str());
    TxError::GitCommand(String::from_str(command_name), text)
}

/// The reflog message of a spill of the patch `name`, with the user's
/// annotation, if any, after a blank line.
pub fn spill_message(name: &str, annotation: Option<&str>) -> (r: String)
    ensures
        r@ == "spill "@ + name@ + match annotation {
            Some(a) => "\n\n"@ + a@,
            None => Seq::<char>::empty(),
        },
{
    let mut r = String::from_str("spill ");
    r.append(name);
    if let Some(a) = annotation {
        r.append("\n\n");
        r.append(a);
    }
    r
}

/// The name of the file that hands a commit message to the `commit-msg`
/// hook: relative to the worktree, and made unique by the process id.
#[derive(Debug)]
pub struct TemporaryMessage {
    filename: String,
}

/// The name of the message file of the process `pid`.
pub open spec fn message_filename(pid: nat) -> Seq<char> {
    ".stgit-msg-temp-"@ + decimal(pid)
}

impl TemporaryMessage {
    pub closed spec fn name(&self) -> Seq<char> {
        self.filename@
    }

    /// The message file of the process `pid`.
    pub fn for_process(pid: u32) -> (r: TemporaryMessage)
        ensures
            r.name() == message_filename(pid as nat),
    {
        let mut filename = String::from_str(".stgit-msg-temp-");
        let number = decimal_string(pid as u64);
        filename.append(number.as_str());
        TemporaryMessage { filename }
    }

    /// The name of the message file, relative to the worktree.
    pub fn filename(&self) -> (r: &str)
        ensures
            r@ == self.name(),
    {
        self.filename.as_str()
    }
}

/// The pieces of `b` between newline bytes, as `split(|&c| c == b'\n')`
/// gives them.
pub open spec fn byte_lines(b: Seq<u8>) -> Seq<Seq<u8>>
    decreases b.len(),
{
    let i = first_newline(b, 0);
    if i < 0 || i >= b.len() {
        seq![b]
    } else {
        seq![b.subrange(0, i)] + byte_lines(b.subrange(i + 1, b.len() as int))
    }
}

/// The first position at or after `k` of a newline byte in `b`, or -1.
pub open spec fn first_newline(b: Seq<u8>, k: int) -> int
    decreases b.len() - k,
{
    if k < 0 || k >= b.len() {
        -1
    } else if b[k] == 10 {
        k
    } else {
        first_newline(b, k + 1)
    }
}

/// `CONFLICT `, the mark of a conflict line in merge output.
pub open spec fn conflict_label() -> Seq<u8> {
    seq![67u8, 79u8, 78u8, 70u8, 76u8, 73u8, 67u8, 84u8, 32u8]
}

/// Whether `l` is a conflict line.
pub open spec fn is_conflict_line(l: Seq<u8>) -> bool {
    l.len() >= 9 && l.subrange(0, 9) == conflict_label()
}

/// Whether `b[start..]` begins with the conflict mark.
fn marked_at(b: &Vec<u8>, start: usize, end: usize) -> (r: bool)
    requires
        start <= end <= b@.len(),
    ensures
        r == is_conflict_line(b@.subrange(start as int, end as int)),
{
    if end - start < 9 {
        return false;
    }
    let label: [u8; 9] = [67, 79, 78, 70, 76, 73, 67, 84, 32];
    let mut i: usize = 0;
    while i < 9
        invariant
            i <= 9,
            start + 9 <= end <= b@.len(),
            label@ == conflict_label(),
            forall|j: int| 0 <= j < i ==> b@[start + j] == label@[j],
        decreases 9 - i,
    {
        if b[start + i] != label[i] {
            proof {
                assert(b@.subrange(start as int, end as int).subrange(0, 9)[i as int] != conflict_label()[i as int]);
            }
            return false;
        }
        i = i + 1;
    }
    proof {
        assert(b@.subrange(start as int, end as int).subrange(0, 9) =~= conflict_label());
    }
    true
}

/// The conflict lines of merge output, in order.
pub fn parse_conflicts(output: &Vec<u8>) -> (r: Vec<Vec<u8>>)
    ensures
        r@.map_values(|l: Vec<u8>| l@) == byte_lines(output@).filter(|l: Seq<u8>| is_conflict_line(l)),
{
    let n = output.len();
    let ghost keep = |l: Seq<u8>| is_conflict_line(l);
    let mut out: Vec<Vec<u8>> = Vec::new();
    let mut start: usize = 0;
    let mut done = false;
    proof {
        assert(output@.subrange(0, n as int) =~= output@);
        assert(Seq::<Seq<u8>>::empty() + byte_lines(output@).filter(keep) =~= byte_lines(output@).filter(keep));
    }
    while !done
        invariant
            n == output@.len(),
            start <= n,
            keep == (|l: Seq<u8>| is_conflict_line(l)),
            done ==> byte_lines(output@).filter(keep) == out@.map_values(|l: Vec<u8>| l@),
            !done ==> byte_lines(output@).filter(keep) == out@.map_values(|l: Vec<u8>| l@)
                + byte_lines(output@.subrange(start as int, n as int)).filter(keep),
        decreases n - start + (if done { 0int } else { 1int }),
    {
        let ghost rest = output@.subrange(start as int, n as int);
        let mut j: usize = 0;
        while start + j < n && output[start + j] != 10
            invariant
                n == output@.len(),
                start + j <= n,
                rest == output@.subrange(start as int, n as int),
                first_newline(rest, 0) == first_newline(rest, j as int),
            decreases n - start - j,
        {
            proof {
                assert(rest[j as int] == output@[start + j]);
            }
            j = j + 1;
        }
        let ghost line = rest.subrange(0, j as int);
        let ghost before = out@;
        let marked = marked_at(output, start, start + j);
        proof {
            assert(output@.subrange(start as int, start + j) =~= line);
        }
        if marked {
            let mut l: Vec<u8> = Vec::new();
            let mut x: usize = 0;
            while x < j
                invariant
                    x <= j,
                    start + j <= n == output@.len(),
                    l@ == output@.subrange(start as int, start + x),
                decreases j - x,
            {
                l.push(output[start + x]);
                proof {
                    assert(l@ =~= output@.subrange(start as int, start + x + 1));
                }
                x = x + 1;
            }
            out.push(l);
        }
        proof {
            assert(out@.map_values(|l: Vec<u8>| l@) =~= if marked {
                before.map_values(|l: Vec<u8>| l@).push(line)
            } else {
                before.map_values(|l: Vec<u8>| l@)
            });
        }
        if start + j < n {
            proof {
                assert(rest[j as int] == 10);
                assert(rest.subrange(j + 1, rest.len() as int) =~= output@.subrange(start + j + 1, n as int));
                assert(byte_lines(rest) == seq![line] + byte_lines(output@.subrange(start + j + 1, n as int)));
                let tail = byte_lines(output@.subrange(start + j + 1, n as int));
                lemma_filter_front(line, tail, keep);
            }
            start = start + j + 1;
        } else {
            proof {
                assert(first_newline(rest, j as int) == -1);
                assert(rest =~= line);
                assert(byte_lines(rest) == seq![line]);
                lemma_filter_front(line, Seq::<Seq<u8>>::empty(), keep);
                assert(seq![line] + Seq::<Seq<u8>>::empty() =~= seq![line]);
                assert(Seq::<Seq<u8>>::empty().filter(keep) =~= Seq::<Seq<u8>>::empty());
            }
            done = true;
        }
    }
    out
}

/// Filtering a sequence with a first element.
proof fn lemma_filter_front(x: Seq<u8>, rest: Seq<Seq<u8>>, keep: spec_fn(Seq<u8>) -> bool)
    ensures
        (seq![x] + rest).filter(keep) == (if keep(x) {
            seq![x]
        } else {
            Seq::<Seq<u8>>::empty()
        }) + rest.filter(keep),
{
    rest.lemma_filter_prepend(x, keep);
}

} // verus!
