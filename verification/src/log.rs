//! Name-prefixed log lines: their layout, and a color for every process that writes them.

use vstd::prelude::*;
use vstd::string::*;

use crate::graph::extend;
use crate::names::NameMap;
use crate::text::Text;

verus! {

// ---------------------------------------------------------------------------
// Prefixes
// ---------------------------------------------------------------------------

/// The width of the name in front of a line.
pub const PREFIX_WIDTH: usize = 12;

/// `n` spaces.
pub open spec fn spaces(n: nat) -> Text {
    Seq::new(n, |i: int| ' ')
}

/// A name as the prefix of a line: a shorter one is filled up with spaces, and a longer one is
/// cut to leave room for an ellipsis.
pub open spec fn prefix_of(name: Text) -> Text {
    if name.len() >= 12 {
        name.take(11).push('\u{2026}')
    } else {
        name + spaces((12 - name.len()) as nat)
    }
}

/// Pads or cuts a name to the width of the prefix, in characters.
pub fn pad(name: &str) -> (r: String)
    ensures
        r@ == prefix_of(name@),
        r@.len() == 12,
        name@.len() < 12 ==> r@.take(name@.len() as int) == name@ && forall|i: int|
            name@.len() <= i < 12 ==> #[trigger] r@[i] == ' ',
        name@.len() >= 12 ==> r@.take(11) == name@.take(11) && r@[11] == '\u{2026}',
{
    let n = name.unicode_len();
    if n >= PREFIX_WIDTH {
        proof {
            reveal_strlit("\u{2026}");
        }
        let r = name.substring_char(0, PREFIX_WIDTH - 1).to_owned().concat("\u{2026}");
        assert(r@ =~= prefix_of(name@));
        r
    } else {
        let mut r = name.to_owned();
        let mut i: usize = n;
        while i < PREFIX_WIDTH
            invariant
                n == name@.len(),
                n <= i <= 12,
                r@ == name@ + spaces((i - n) as nat),
            decreases 12 - i,
        {
            proof {
                reveal_strlit(" ");
            }
            r.append(" ");
            assert(r@ =~= name@ + spaces((i + 1 - n) as nat));
            i += 1;
        }
        r
    }
}

// ---------------------------------------------------------------------------
// Colors
// ---------------------------------------------------------------------------

/// What ends every color.
pub open spec fn reset() -> Text {
    "\x1b[0m"@
}

/// The color of the supervisor's own lines.
pub open spec fn dim() -> Text {
    "\x1b[90m"@
}

/// The number of colors.
pub const PALETTE_SIZE: usize = 8;

/// The colors of processes.
pub open spec fn palette(i: int) -> Text {
    if i == 0 {
        "\x1b[36m"@
    } else if i == 1 {
        "\x1b[32m"@
    } else if i == 2 {
        "\x1b[33m"@
    } else if i == 3 {
        "\x1b[35m"@
    } else if i == 4 {
        "\x1b[34m"@
    } else if i == 5 {
        "\x1b[31m"@
    } else if i == 6 {
        "\x1b[96m"@
    } else {
        "\x1b[92m"@
    }
}

fn palette_color(i: usize) -> (r: &'static str)
    ensures
        r@ == palette(i as int),
        i == 0 ==> r@ == "\x1b[36m"@,
        i == 1 ==> r@ == "\x1b[32m"@,
        i == 2 ==> r@ == "\x1b[33m"@,
        i == 3 ==> r@ == "\x1b[35m"@,
        i == 4 ==> r@ == "\x1b[34m"@,
        i == 5 ==> r@ == "\x1b[31m"@,
        i == 6 ==> r@ == "\x1b[96m"@,
        i == 7 ==> r@ == "\x1b[92m"@,
{
    if i == 0 {
        "\x1b[36m"
    } else if i == 1 {
        "\x1b[32m"
    } else if i == 2 {
        "\x1b[33m"
    } else if i == 3 {
        "\x1b[35m"
    } else if i == 4 {
        "\x1b[34m"
    } else if i == 5 {
        "\x1b[31m"
    } else if i == 6 {
        "\x1b[96m"
    } else {
        "\x1b[92m"
    }
}

// ---------------------------------------------------------------------------
// The logger
// ---------------------------------------------------------------------------

/// Lays out log lines.
pub struct Logger {
    assigned: NameMap<usize>,
    colors: bool,
}

/// The model of a logger: whether it colors, and the place in the palette of every name that
/// has a color.
#[verifier::ext_equal]
pub struct Log {
    pub colors: bool,
    pub assigned: Map<Text, usize>,
}

/// The place in the palette of `name`: the one it has, or the next in turn.
pub open spec fn color_index(l: Log, name: Text) -> int {
    if l.assigned.contains_key(name) {
        l.assigned[name] as int
    } else {
        (l.assigned.dom().len() % 8) as int
    }
}

/// The logger with a color for `name`.
pub open spec fn colored(l: Log, name: Text) -> Log {
    if l.assigned.contains_key(name) {
        l
    } else {
        Log { assigned: l.assigned.insert(name, color_index(l, name) as usize), ..l }
    }
}

/// A line of the output of the process `name`.
pub open spec fn process_line(l: Log, name: Text, line: Text) -> Text {
    if l.colors {
        palette(color_index(l, name)) + prefix_of(name) + reset() + " | "@ + line + reset()
    } else {
        prefix_of(name) + " | "@ + line
    }
}

/// A line of the supervisor's own.
pub open spec fn system_line(l: Log, msg: Text) -> Text {
    let prefix = prefix_of("nix-process"@);
    if l.colors {
        dim() + prefix + reset() + " | "@ + dim() + msg + reset()
    } else {
        prefix + " | "@ + msg
    }
}

impl View for Logger {
    type V = Log;

    closed spec fn view(&self) -> Log {
        Log { colors: self.colors, assigned: self.assigned@ }
    }
}

impl Logger {
    /// The names are unique and sorted.
    pub closed spec fn wf(&self) -> bool {
        self.assigned.wf()
    }

    /// A logger that has given out no color; `colors` says whether it colors at all, as it
    /// should on a terminal.
    pub fn new(colors: bool) -> (r: Logger)
        ensures
            r.wf(),
            r@ == (Log { colors, assigned: Map::empty() }),
    {
        Logger { assigned: NameMap::new(), colors }
    }

    /// The color of `name`: the one that it was given, or the next of the palette, which starts
    /// over when all have been used.
    pub fn color_for(&mut self, name: &str) -> (r: &'static str)
        requires
            old(self).wf(),
        ensures
            final(self).wf(),
            final(self)@ == colored(old(self)@, name@),
            r@ == palette(color_index(old(self)@, name@)),
            final(self)@.colors == old(self)@.colors,
            old(self)@.assigned.contains_key(name@) ==> {
                &&& final(self)@ == old(self)@
                &&& r@ == palette(old(self)@.assigned[name@] as int)
            },
            !old(self)@.assigned.contains_key(name@) ==> {
                let i = (old(self)@.assigned.dom().len() % 8) as usize;
                &&& final(self)@.assigned == old(self)@.assigned.insert(name@, i)
                &&& r@ == palette(i as int)
            },
    {
        if let Some(i) = self.assigned.get(name) {
            return palette_color(*i);
        }
        let i: usize = self.assigned.len() % PALETTE_SIZE;
        self.assigned.insert(name.to_owned(), i);
        assert(self@ =~= colored(old(self)@, name@));
        palette_color(i)
    }

    /// Lays out one line of the output of a process. `line` may hold the process's own color
    /// codes; what is left open is closed behind it.
    pub fn line(&mut self, name: &str, line: &str) -> (r: String)
        requires
            old(self).wf(),
        ensures
            final(self).wf(),
            final(self)@ == (if old(self)@.colors {
                colored(old(self)@, name@)
            } else {
                old(self)@
            }),
            r@ == process_line(old(self)@, name@, line@),
            !old(self)@.colors ==> r@.len() == 15 + line@.len() && r@.take(12) == prefix_of(name@)
                && r@.subrange(12, 15) == " | "@ && r@.skip(15) == line@,
            old(self)@.colors ==> r@ == palette(color_index(old(self)@, name@)) + prefix_of(name@)
                + "\x1b[0m"@ + " | "@ + line@ + "\x1b[0m"@,
    {
        let prefix = pad(name);
        if self.colors {
            let color = self.color_for(name);
            color.to_owned().concat(prefix.as_str()).concat("\x1b[0m").concat(" | ").concat(
                line,
            ).concat("\x1b[0m")
        } else {
            proof {
                reveal_strlit(" | ");
            }
            let r = prefix.concat(" | ").concat(line);
            assert(r@.take(12) =~= prefix_of(name@));
            assert(r@.subrange(12, 15) =~= " | "@);
            assert(r@.skip(15) =~= line@);
            r
        }
    }

    /// Lays out a line of the supervisor's own.
    pub fn system(&self, msg: &str) -> (r: String)
        ensures
            r@ == system_line(self@, msg@),
            !self@.colors ==> r@ == "nix-process "@ + " | "@ + msg@,
            self@.colors ==> r@ == "\x1b[90m"@ + "nix-process "@ + "\x1b[0m"@ + " | "@
                + "\x1b[90m"@ + msg@ + "\x1b[0m"@,
    {
        let prefix = pad("nix-process");
        proof {
            reveal_strlit("nix-process");
            reveal_strlit("nix-process ");
            assert(prefix@ =~= "nix-process "@);
        }
        if self.colors {
            "\x1b[90m".to_owned().concat(prefix.as_str()).concat("\x1b[0m").concat(" | ").concat(
                "\x1b[90m",
            ).concat(msg).concat("\x1b[0m")
        } else {
            prefix.concat(" | ").concat(msg)
        }
    }
}

// ---------------------------------------------------------------------------
// Terminal size
// ---------------------------------------------------------------------------

/// The columns and rows to give to the terminal of a process, where the terminal that its output
/// goes to has the given ones: as many columns as the prefix leaves, 20 at least. 80 by 24 where
/// there is no such terminal, or it has no size.
pub fn child_winsize(terminal: Option<(u16, u16)>) -> (r: (u16, u16))
    ensures
        match terminal {
            Some((cols, rows)) => if cols == 0 || rows == 0 {
                r == (80u16, 24u16)
            } else {
                r.1 == rows && r.0 == (if cols >= 35 {
                    cols - 15
                } else {
                    20
                })
            },
            None => r == (80u16, 24u16),
        },
{
    match terminal {
        Some((cols, rows)) => {
            if cols == 0 || rows == 0 {
                return (80, 24);
            }
            let overhead: u16 = (PREFIX_WIDTH + 3) as u16;
            let left: u16 = cols.saturating_sub(overhead);
            let wide: u16 = if left > 20 {
                left
            } else {
                20
            };
            (wide, rows)
        },
        None => (80, 24),
    }
}

// ---------------------------------------------------------------------------
// Laws
// ---------------------------------------------------------------------------

/// The logger after lines of the processes `names`, one behind the other.
pub open spec fn colored_all(l: Log, names: Seq<Text>) -> Log
    decreases names.len(),
{
    if names.len() == 0 {
        l
    } else {
        colored(colored_all(l, names.drop_last()), names.last())
    }
}

/// Colors are given out in turn and kept: whatever lines a fresh logger lays out, in whatever
/// order, the first process to write has the first color of the palette, the next one the
/// second, and so on, starting over behind the last color.
pub proof fn law_colors_are_given_out_in_turn(colors: bool, names: Seq<Text>)
    ensures
        ({
            let l = colored_all(Log { colors, assigned: Map::empty() }, names);
            let firsts = extend(Seq::empty(), names);
            &&& l.assigned.dom() == firsts.to_set()
            &&& firsts.no_duplicates()
            &&& forall|k: int|
                0 <= k < firsts.len() ==> color_index(l, #[trigger] firsts[k]) == k % 8
        }),
    decreases names.len(),
{
    let fresh = Log { colors, assigned: Map::empty() };
    let l = colored_all(fresh, names);
    let firsts = extend(Seq::<Text>::empty(), names);
    if names.len() == 0 {
        assert(l.assigned.dom() =~= firsts.to_set());
    } else {
        let rest = names.drop_last();
        let name = names.last();
        law_colors_are_given_out_in_turn(colors, rest);
        let before = colored_all(fresh, rest);
        let earlier = extend(Seq::<Text>::empty(), rest);
        assert(earlier.to_set().contains(name) == earlier.contains(name));
        if !earlier.contains(name) {
            earlier.unique_seq_to_set();
            earlier.lemma_push_to_set_commute(name);
            assert(l.assigned.dom() =~= firsts.to_set());
            assert forall|k: int| 0 <= k < firsts.len() implies color_index(l, #[trigger] firsts[k])
                == k % 8 by {
                if k < earlier.len() {
                    assert(firsts[k] == earlier[k]);
                    assert(earlier.to_set().contains(earlier[k]));
                    assert(color_index(before, earlier[k]) == k % 8);
                }
            }
        }
    }
}

/// A process keeps its color, whatever other processes are given colors.
pub proof fn law_color_is_stable(l: Log, name: Text, others: Seq<Text>)
    ensures
        color_index(colored_all(colored(l, name), others), name) == color_index(l, name),
        colored_all(colored(l, name), others).assigned.contains_key(name),
    decreases others.len(),
{
    if others.len() > 0 {
        law_color_is_stable(l, name, others.drop_last());
    }
}

/// Every prefix is as wide as it should be, and shows as much of its name as there is room for.
pub proof fn law_prefix_has_its_width(name: Text)
    ensures
        prefix_of(name).len() == 12,
        name.len() < 12 ==> prefix_of(name).take(name.len() as int) == name,
        name.len() < 12 ==> forall|i: int|
            name.len() <= i < 12 ==> #[trigger] prefix_of(name)[i] == ' ',
        name.len() >= 12 ==> prefix_of(name).take(11) == name.take(11),
        name.len() >= 12 ==> prefix_of(name)[11] == '\u{2026}',
{
    if name.len() < 12 {
        assert(prefix_of(name).take(name.len() as int) =~= name);
    } else {
        assert(prefix_of(name).take(11) =~= name.take(11));
    }
}

/// Nothing of the output is lost or changed: without colors a line is its prefix, the separator
/// and the whole of what the process wrote; with colors what the process wrote stands whole
/// between the separator and the code that ends every color, and the prefix stands whole between
/// its color and that code.
pub proof fn law_a_line_is_shown_whole(l: Log, name: Text, line: Text)
    ensures
        ({
            let r = process_line(l, name, line);
            &&& !l.colors ==> {
                &&& r.len() == line.len() + 15
                &&& r.skip(15) == line
                &&& r.subrange(12, 15) == " | "@
                &&& r.take(12) == pad_text(name)
            }
            &&& l.colors ==> {
                let before = r.len() - 4 - line.len();
                &&& before >= 3
                &&& r.subrange(before, before + line.len()) == line
                &&& r.skip(before + line.len()) == "\x1b[0m"@
                &&& r.subrange(before - 3, before) == " | "@
                &&& r.subrange(before - 7, before - 3) == "\x1b[0m"@
                &&& r.subrange(before - 19, before - 7) == pad_text(name)
            }
        }),
{
    let r = process_line(l, name, line);
    reveal_strlit(" | ");
    reveal_strlit("\x1b[0m");
    law_prefix_has_its_width(name);
    lemma_pad_text(name);
    if l.colors {
        let color = palette(color_index(l, name));
        let before = r.len() - 4 - line.len();
        assert(before == color.len() + 12 + 4 + 3);
        assert(r.subrange(before, before + line.len()) =~= line);
        assert(r.skip(before + line.len()) =~= "\x1b[0m"@);
        assert(r.subrange(before - 3, before) =~= " | "@);
        assert(r.subrange(before - 7, before - 3) =~= "\x1b[0m"@);
        assert(r.subrange(before - 19, before - 7) =~= prefix_of(name));
    } else {
        assert(r.skip(15) =~= line);
        assert(r.subrange(12, 15) =~= " | "@);
        assert(r.take(12) =~= prefix_of(name));
    }
}

/// Twelve characters: those of the name, as far as they fit, and what fills them up.
pub open spec fn pad_text(name: Text) -> Text {
    Seq::new(
        12,
        |i: int|
            if name.len() >= 12 && i == 11 {
                '\u{2026}'
            } else if i < name.len() {
                name[i]
            } else {
                ' '
            },
    )
}

proof fn lemma_pad_text(name: Text)
    ensures
        prefix_of(name) == pad_text(name),
{
    assert(prefix_of(name) =~= pad_text(name));
}

/// The supervisor's own lines show the whole of their message behind the same separator.
pub proof fn law_a_message_is_shown_whole(l: Log, msg: Text)
    ensures
        !l.colors ==> system_line(l, msg) == "nix-process "@ + " | "@ + msg,
        l.colors ==> system_line(l, msg) == "\x1b[90m"@ + "nix-process "@ + "\x1b[0m"@ + " | "@
            + "\x1b[90m"@ + msg + "\x1b[0m"@,
{
    reveal_strlit("nix-process");
    reveal_strlit("nix-process ");
    assert(prefix_of("nix-process"@) =~= "nix-process "@);
}

/// The colors are those of the terminal, in this order.
pub proof fn law_the_palette_has_eight_colors()
    ensures
        palette(0) == "\x1b[36m"@,
        palette(1) == "\x1b[32m"@,
        palette(2) == "\x1b[33m"@,
        palette(3) == "\x1b[35m"@,
        palette(4) == "\x1b[34m"@,
        palette(5) == "\x1b[31m"@,
        palette(6) == "\x1b[96m"@,
        palette(7) == "\x1b[92m"@,
{
}

/// A name keeps its color; a new one gets the next in turn, and leaves those of the others.
pub proof fn law_colors_are_given_in_turn(l: Log, name: Text, other: Text)
    requires
        l.assigned.dom().finite(),
    ensures
        ({
            let m = colored(l, name);
            &&& m.colors == l.colors
            &&& m.assigned.contains_key(name)
            &&& m.assigned.contains_key(other) <==> l.assigned.contains_key(other) || other == name
            &&& l.assigned.contains_key(other) ==> m.assigned[other] == l.assigned[other]
            &&& !l.assigned.contains_key(name) ==> m.assigned[name] == l.assigned.dom().len() % 8
            &&& m.assigned.dom().len() == l.assigned.dom().len() + (if l.assigned.contains_key(
                name,
            ) {
                0int
            } else {
                1
            })
            &&& color_index(m, name) == m.assigned[name]
            &&& color_index(l, name) == m.assigned[name]
        }),
{
    if !l.assigned.contains_key(name) {
        assert(colored(l, name).assigned.dom() =~= l.assigned.dom().insert(name));
    }
}

} // verus!
