//! Layout of the display: a list of instructions, one on a line.
use crate::text::{
    append_chars, append_str, chars_are, chars_of, copy_range, first_of, string_of,
    string_of_range,
};
use vstd::prelude::*;

verus! {

/// TUI Instruction
#[derive(Debug, PartialEq, Eq)]
pub enum TuiInstr {
    /// Tell the TUI to display a signal.
    Signal(String),
    /// Tell the TUI to display the result of a search expression.
    Search(String),
    /// Tell the TUI to display an error message: the line that could not
    /// be read, and what is wrong with it.
    Error(String, String),
}

/// The mathematical value of a `TuiInstr`.
pub enum InstrView {
    Signal(Seq<char>),
    Search(Seq<char>),
    Error(Seq<char>, Seq<char>),
}

impl View for TuiInstr {
    type V = InstrView;

    open spec fn view(&self) -> InstrView {
        match self {
            TuiInstr::Signal(s) => InstrView::Signal(s@),
            TuiInstr::Search(s) => InstrView::Search(s@),
            TuiInstr::Error(line, message) => InstrView::Error(line@, message@),
        }
    }
}

impl Clone for TuiInstr {
    fn clone(&self) -> (r: TuiInstr)
        ensures
            r@ == self@,
    {
        match self {
            TuiInstr::Signal(s) => TuiInstr::Signal(s.clone()),
            TuiInstr::Search(s) => TuiInstr::Search(s.clone()),
            TuiInstr::Error(line, message) => TuiInstr::Error(line.clone(), message.clone()),
        }
    }
}

/// The instructions of a list.
pub open spec fn instr_views(instrs: Seq<TuiInstr>) -> Seq<InstrView> {
    Seq::new(instrs.len(), |i: int| instrs[i]@)
}

impl InstrView {
    /// The number of rows that the instruction takes up: three for a
    /// signal, one for anything else.
    pub open spec fn rows(self) -> nat {
        match self {
            InstrView::Signal(_) => 3,
            _ => 1,
        }
    }

    /// The line of the instruction in a layout file.
    pub open spec fn line(self) -> Seq<char> {
        match self {
            InstrView::Signal(s) => "signal "@ + s,
            InstrView::Search(s) => "search "@ + s,
            InstrView::Error(line, _) => line,
        }
    }
}

/// The rows that a list of instructions takes up.
pub open spec fn total_rows(instrs: Seq<InstrView>) -> nat
    decreases instrs.len(),
{
    if instrs.len() == 0 {
        0
    } else {
        total_rows(instrs.drop_last()) + instrs.last().rows()
    }
}

/// The instruction that a line of a layout file holds: a verb, a space
/// and an argument. A line without a space and a line with an unknown
/// verb are kept as errors.
pub open spec fn instruction(line: Seq<char>) -> InstrView {
    let space = first_of(line, 0, ' ');
    if !(0 <= space < line.len()) {
        InstrView::Error(line, "Syntax Error"@)
    } else if line.take(space) == "signal"@ {
        InstrView::Signal(line.skip(space + 1))
    } else if line.take(space) == "search"@ {
        InstrView::Search(line.skip(space + 1))
    } else {
        InstrView::Error(line, "Unknown command '"@ + line.take(space) + "'"@)
    }
}

/// The line that begins at a position, without its line feed and without
/// a carriage return before it.
pub open spec fn line_at(s: Seq<char>, p: int) -> Seq<char> {
    let e = first_of(s, p, '\n');
    if p < e <= s.len() && e < s.len() && s[e - 1] == '\r' {
        s.subrange(p, e - 1)
    } else {
        s.subrange(p, e)
    }
}

/// The instructions of a layout from a position on, a line each. Empty
/// lines and lines that begin with `#` hold none.
pub open spec fn instructions_from(s: Seq<char>, p: int) -> Seq<InstrView>
    decreases s.len() - p,
{
    if 0 <= p < s.len() {
        let e = first_of(s, p, '\n');
        let line = line_at(s, p);
        let rest = if p <= e < s.len() {
            instructions_from(s, e + 1)
        } else {
            Seq::empty()
        };
        if line.len() == 0 || line[0] == '#' {
            rest
        } else {
            seq![instruction(line)] + rest
        }
    } else {
        Seq::empty()
    }
}

/// The lines of a list of instructions, each with a line feed.
pub open spec fn layout_text(instrs: Seq<InstrView>) -> Seq<char>
    decreases instrs.len(),
{
    if instrs.len() == 0 {
        Seq::empty()
    } else {
        layout_text(instrs.drop_last()) + instrs.last().line() + seq!['\n']
    }
}

impl TuiInstr {
    /// The number of rows that the instruction takes up.
    pub fn height(&self) -> (r: usize)
        ensures
            r == self@.rows(),
    {
        match self {
            TuiInstr::Signal(_) => 3,
            TuiInstr::Search(_) => 1,
            TuiInstr::Error(_, _) => 1,
        }
    }

    /// The number of rows that a list of instructions takes up.
    pub fn total_height(instrs: &[TuiInstr]) -> (r: usize)
        requires
            3 * instrs@.len() <= usize::MAX,
        ensures
            r == total_rows(instr_views(instrs@)),
    {
        let ghost views = instr_views(instrs@);
        let mut h: usize = 0;
        let mut i: usize = 0;
        assert(views.take(0) =~= Seq::<InstrView>::empty());
        while i < instrs.len()
            invariant
                i <= instrs.len(),
                views == instr_views(instrs@),
                3 * instrs@.len() <= usize::MAX,
                h == total_rows(views.take(i as int)),
                h <= 3 * i,
            decreases instrs.len() - i,
        {
            proof {
                let t = views.take(i + 1);
                assert(t.drop_last() =~= views.take(i as int));
                assert(t.last() == instrs@[i as int]@);
            }
            h += instrs[i].height();
            i += 1;
        }
        assert(views.take(instrs@.len() as int) == views);
        h
    }

    /// Reads the instruction of a line.
    pub fn parse_line(line: &str) -> (r: TuiInstr)
        ensures
            r@ == instruction(line@),
    {
        let chars = chars_of(line);
        TuiInstr::parse_chars(&chars)
    }

    /// Reads the instruction of a line given as characters.
    pub fn parse_chars(chars: &Vec<char>) -> (r: TuiInstr)
        ensures
            r@ == instruction(chars@),
    {
        let mut space: usize = 0;
        while space < chars.len() && chars[space] != ' '
            invariant
                space <= chars.len(),
                first_of(chars@, 0, ' ') == first_of(chars@, space as int, ' '),
            decreases chars.len() - space,
        {
            space += 1;
        }
        if space >= chars.len() {
            return TuiInstr::Error(string_of(chars), string_of(&chars_of("Syntax Error")));
        }
        let verb = copy_range(chars, 0, space);
        proof {
            assert(chars@.subrange(0, space as int) == chars@.take(space as int));
            assert(chars@.subrange(space + 1, chars@.len() as int) == chars@.skip(space + 1));
        }
        if chars_are(&verb, "signal") {
            TuiInstr::Signal(string_of_range(chars, space + 1, chars.len()))
        } else if chars_are(&verb, "search") {
            TuiInstr::Search(string_of_range(chars, space + 1, chars.len()))
        } else {
            let mut message: Vec<char> = Vec::new();
            append_str(&mut message, "Unknown command '");
            append_chars(&mut message, &verb);
            append_str(&mut message, "'");
            TuiInstr::Error(string_of(chars), string_of(&message))
        }
    }

    /// Reads the instructions of a layout, one on a line; empty lines and
    /// lines that begin with `#` are passed over.
    pub fn parse(input: &str) -> (r: Vec<TuiInstr>)
        ensures
            instr_views(r@) == instructions_from(input@, 0),
    {
        let chars = chars_of(input);
        let mut instrs: Vec<TuiInstr> = Vec::new();
        let mut p: usize = 0;
        assert(instr_views(instrs@) =~= Seq::<InstrView>::empty());
        while p < chars.len()
            invariant
                p <= chars.len(),
                chars@ == input@,
                instructions_from(chars@, 0) == instr_views(instrs@) + instructions_from(
                    chars@,
                    p as int,
                ),
            decreases chars.len() - p,
        {
            let mut e: usize = p;
            while e < chars.len() && chars[e] != '\n'
                invariant
                    p <= e <= chars.len(),
                    first_of(chars@, p as int, '\n') == first_of(chars@, e as int, '\n'),
                decreases chars.len() - e,
            {
                e += 1;
            }
            let end = if e > p && e < chars.len() && chars[e - 1] == '\r' {
                e - 1
            } else {
                e
            };
            let ghost before = instr_views(instrs@);
            let ghost line = line_at(chars@, p as int);
            assert(line == chars@.subrange(p as int, end as int));
            if end > p && chars[p] != '#' {
                let text = copy_range(&chars, p, end);
                instrs.push(TuiInstr::parse_chars(&text));
                proof {
                    assert(line[0] == chars@[p as int]);
                    assert(instr_views(instrs@) =~= before.push(instruction(line)));
                    let rest = if e < chars.len() {
                        instructions_from(chars@, e + 1)
                    } else {
                        Seq::empty()
                    };
                    assert(before + (seq![instruction(line)] + rest) =~= before.push(
                        instruction(line),
                    ) + rest);
                }
            } else {
                proof {
                    if end > p {
                        assert(line[0] == chars@[p as int]);
                    }
                }
            }
            if e < chars.len() {
                p = e + 1;
            } else {
                p = e;
                assert(instr_views(instrs@) + Seq::<InstrView>::empty() =~= instr_views(instrs@));
            }
        }
        assert(instr_views(instrs@) + Seq::<InstrView>::empty() =~= instr_views(instrs@));
        instrs
    }

    /// The line of the instruction in a layout file.
    pub fn to_string(&self) -> (r: String)
        ensures
            r@ == self@.line(),
    {
        let mut out: Vec<char> = Vec::new();
        self.write_to(&mut out);
        string_of(&out)
    }

    /// Appends the line of the instruction.
    pub fn write_to(&self, out: &mut Vec<char>)
        ensures
            final(out)@ == old(out)@ + self@.line(),
    {
        match self {
            TuiInstr::Signal(s) => {
                append_str(out, "signal ");
                append_str(out, s.as_str());
                assert(out@ =~= old(out)@ + ("signal "@ + s@));
            },
            TuiInstr::Search(s) => {
                append_str(out, "search ");
                append_str(out, s.as_str());
                assert(out@ =~= old(out)@ + ("search "@ + s@));
            },
            TuiInstr::Error(s, _) => {
                append_str(out, s.as_str());
            },
        }
    }

    /// Formats a list of instructions as a layout, one on a line.
    pub fn format_instrs(instrs: &[TuiInstr]) -> (r: String)
        ensures
            r@ == layout_text(instr_views(instrs@)),
    {
        let ghost views = instr_views(instrs@);
        let mut out: Vec<char> = Vec::new();
        let mut i: usize = 0;
        assert(views.take(0) =~= Seq::<InstrView>::empty());
        while i < instrs.len()
            invariant
                i <= instrs.len(),
                views == instr_views(instrs@),
                out@ == layout_text(views.take(i as int)),
            decreases instrs.len() - i,
        {
            proof {
                let t = views.take(i + 1);
                assert(t.drop_last() =~= views.take(i as int));
                assert(t.last() == instrs@[i as int]@);
            }
            let ghost before = out@;
            instrs[i].write_to(&mut out);
            out.push('\n');
            assert(out@ =~= before + instrs@[i as int]@.line() + seq!['\n']);
            i += 1;
        }
        assert(views.take(instrs@.len() as int) == views);
        string_of(&out)
    }
}

} // verus!
