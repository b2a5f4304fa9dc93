//! The command line, and the report of the console mode.

use vstd::prelude::*;

use crate::ip::IpAddr;
use crate::network_engine::{hop_views, Hop, HopView};
use crate::text::{decimal, padded_left, padded_right};
use crate::text::{pad_left, pad_right, write_decimal};

verus! {

// ---------------------------------------------------------------------------------------------
// Command line
// ---------------------------------------------------------------------------------------------

/// What the command line asks for.
#[derive(Debug)]
pub enum Invocation {
    /// Nothing: the usage is to be shown.
    NoArguments,
    /// Console mode without a target.
    MissingTarget,
    /// The usage.
    Help,
    /// A target without characters.
    EmptyTarget,
    /// Console mode for a target.
    Console(String),
    /// The window for a target.
    Gui(String),
}

/// What a command line, the program's name first, asks for.
pub open spec fn invocation(args: Seq<String>) -> Invocation {
    if args.len() < 2 {
        Invocation::NoArguments
    } else if args[1]@ == "--console"@ {
        if args.len() < 3 {
            Invocation::MissingTarget
        } else if args[2]@.len() == 0 {
            Invocation::EmptyTarget
        } else {
            Invocation::Console(args[2])
        }
    } else if args[1]@ == "--help"@ || args[1]@ == "-h"@ {
        Invocation::Help
    } else if args[1]@.len() == 0 {
        Invocation::EmptyTarget
    } else {
        Invocation::Gui(args[1])
    }
}

/// Reads a command line, the program's name first.
pub fn parse_args(args: &Vec<String>) -> (r: Invocation)
    ensures
        r == invocation(args@),
{
    if args.len() < 2 {
        return Invocation::NoArguments;
    }
    if args[1] == "--console".to_owned() {
        if args.len() < 3 {
            return Invocation::MissingTarget;
        }
        if args[2].as_str().is_empty() {
            return Invocation::EmptyTarget;
        }
        Invocation::Console(args[2].clone())
    } else if args[1] == "--help".to_owned() || args[1] == "-h".to_owned() {
        Invocation::Help
    } else if args[1].as_str().is_empty() {
        Invocation::EmptyTarget
    } else {
        Invocation::Gui(args[1].clone())
    }
}

impl Invocation {
    /// The exit code of an invocation that only shows the usage.
    pub fn exit_code(&self) -> (r: Option<i32>)
        ensures
            r == (match self {
                Invocation::Console(_) | Invocation::Gui(_) => None::<i32>,
                Invocation::Help => Some(0i32),
                _ => Some(1i32),
            }),
    {
        match self {
            Invocation::Console(_) | Invocation::Gui(_) => None,
            Invocation::Help => Some(0),
            _ => Some(1),
        }
    }

    /// The complaint that comes before the usage, if there is one.
    pub fn complaint(&self) -> (r: Option<&'static str>)
        ensures
            match self {
                Invocation::MissingTarget => r matches Some(text) && text@
                    == "Error: --console mode requires a target"@,
                Invocation::EmptyTarget => r matches Some(text) && text@
                    == "Error: target cannot be empty"@,
                _ => r is None,
            },
    {
        match self {
            Invocation::MissingTarget => Some("Error: --console mode requires a target"),
            Invocation::EmptyTarget => Some("Error: target cannot be empty"),
            _ => None,
        }
    }
}

// ---------------------------------------------------------------------------------------------
// Report
// ---------------------------------------------------------------------------------------------

/// A line of the report: a hop, its address if it has RTTs, and its first three RTTs in
/// nanoseconds.
#[derive(Clone, Copy, Debug, PartialEq, Eq, Structural)]
pub struct ConsoleLine {
    pub hop_number: u8,
    pub ip: Option<IpAddr>,
    pub first: Option<u64>,
    pub second: Option<u64>,
    pub third: Option<u64>,
}

/// The RTT at place `i`, if there is one.
pub open spec fn rtt_at(rtts: Seq<u64>, i: int) -> Option<u64> {
    if i < rtts.len() {
        Some(rtts[i])
    } else {
        None
    }
}

/// The line of a hop.
pub open spec fn console_line(hop: HopView) -> ConsoleLine {
    ConsoleLine {
        hop_number: hop.hop_number,
        ip: if hop.rtts.len() == 0 {
            None
        } else {
            Some(hop.ip)
        },
        first: rtt_at(hop.rtts, 0),
        second: rtt_at(hop.rtts, 1),
        third: rtt_at(hop.rtts, 2),
    }
}

/// The text of a hop's probe: that of its RTT, or an asterisk where there is none.
pub open spec fn probe_text(rtt: Option<u64>, text: Seq<char>) -> Seq<char> {
    if rtt is Some {
        text
    } else {
        "*"@
    }
}

/// A line laid out in columns, given the texts of its address and its RTTs: number, address and
/// three probes. A hop without RTTs has asterisks throughout.
pub open spec fn layout(
    line: ConsoleLine,
    ip: Seq<char>,
    first: Seq<char>,
    second: Seq<char>,
    third: Seq<char>,
) -> Seq<char> {
    let number = padded_left(decimal(line.hop_number as nat), 3, ' ');
    let probe1 = probe_text(line.first, first);
    let probe2 = probe_text(line.second, second);
    let probe3 = probe_text(line.third, third);
    if line.ip is None {
        number + "  *                    "@ + probe1 + "        "@ + probe2 + "        "@ + probe3
    } else {
        number + "  "@ + padded_right(ip, 20) + " "@ + padded_left(probe1, 8, ' ') + "  "@
            + padded_left(probe2, 8, ' ') + "  "@ + padded_left(probe3, 8, ' ')
    }
}

/// Picks the text of a hop's probe.
fn pick_probe<'a>(rtt: Option<u64>, text: &'a str) -> (r: &'a str)
    ensures
        r@ == probe_text(rtt, text@),
{
    if rtt.is_some() {
        text
    } else {
        "*"
    }
}

impl ConsoleLine {
    /// Lays out the line in columns. The texts of missing RTTs are ignored, and so is that of a
    /// missing address.
    pub fn text(&self, ip: &str, first: &str, second: &str, third: &str) -> (r: String)
        ensures
            r@ == layout(*self, ip@, first@, second@, third@),
    {
        proof {
            reveal_strlit(" ");
        }
        let number = write_decimal(self.hop_number as u128);
        let mut line = pad_left(number.as_str(), 3, " ");
        let probe1 = pick_probe(self.first, first);
        let probe2 = pick_probe(self.second, second);
        let probe3 = pick_probe(self.third, third);
        if self.ip.is_none() {
            line.append("  *                    ");
            line.append(probe1);
            line.append("        ");
            line.append(probe2);
            line.append("        ");
            line.append(probe3);
        } else {
            line.append("  ");
            line.append(pad_right(ip, 20).as_str());
            line.append(" ");
            line.append(pad_left(probe1, 8, " ").as_str());
            line.append("  ");
            line.append(pad_left(probe2, 8, " ").as_str());
            line.append("  ");
            line.append(pad_left(probe3, 8, " ").as_str());
        }
        assert(line@ =~= layout(*self, ip@, first@, second@, third@));
        line
    }
}

fn read_rtt(rtts: &Vec<u64>, i: usize) -> (r: Option<u64>)
    ensures
        r == rtt_at(rtts@, i as int),
{
    if i < rtts.len() {
        Some(rtts[i])
    } else {
        None
    }
}

/// Builds the lines of the report, one per hop.
pub fn console_lines(hops: &Vec<Hop>) -> (r: Vec<ConsoleLine>)
    ensures
        r@ == hop_views(hops@).map_values(|hop: HopView| console_line(hop)),
{
    let mut lines: Vec<ConsoleLine> = Vec::new();
    let mut i: usize = 0;
    while i < hops.len()
        invariant
            i <= hops@.len(),
            lines@.len() == i,
            forall|j: int| 0 <= j < i ==> #[trigger] lines@[j] == console_line(hops@[j]@),
        decreases hops@.len() - i,
    {
        let hop = &hops[i];
        lines.push(
            ConsoleLine {
                hop_number: hop.hop_number,
                ip: if hop.rtts.len() == 0 {
                    None
                } else {
                    Some(hop.ip)
                },
                first: read_rtt(&hop.rtts, 0),
                second: read_rtt(&hop.rtts, 1),
                third: read_rtt(&hop.rtts, 2),
            },
        );
        i = i + 1;
    }
    assert(lines@ =~= hop_views(hops@).map_values(|hop: HopView| console_line(hop)));
    lines
}

/// The number of hops that have RTTs.
pub open spec fn responding(hops: Seq<HopView>) -> nat {
    hops.filter(|hop: HopView| hop.rtts.len() > 0).len()
}

/// Counts the hops that have RTTs.
pub fn count_responding(hops: &Vec<Hop>) -> (r: usize)
    ensures
        r == responding(hop_views(hops@)),
{
    let ghost views = hop_views(hops@);
    let mut count: usize = 0;
    let mut i: usize = 0;
    proof {
        reveal(Seq::filter);
        assert(responding(views.take(0)) == 0);
    }
    while i < hops.len()
        invariant
            i <= hops@.len(),
            views == hop_views(hops@),
            count == responding(views.take(i as int)),
            count <= i,
        decreases hops@.len() - i,
    {
        proof {
            reveal(Seq::filter);
            assert(views.take(i + 1).drop_last() =~= views.take(i as int));
            assert(views.take(i + 1).last() == hops@[i as int]@);
        }
        if hops[i].rtts.len() > 0 {
            count = count + 1;
        }
        i = i + 1;
    }
    assert(views.take(i as int) =~= views);
    count
}

/// The address shown for the target: that of the last hop, if there are hops.
pub fn final_address(hops: &Vec<Hop>) -> (r: Option<IpAddr>)
    ensures
        r == if hops@.len() == 0 {
            None
        } else {
            Some(hops@.last()@.ip)
        },
{
    if hops.len() == 0 {
        None
    } else {
        Some(hops[hops.len() - 1].ip)
    }
}

// ---------------------------------------------------------------------------------------------
// Laws
// ---------------------------------------------------------------------------------------------

/// What a command line asks for is decided by its first argument, or by the two first where the
/// first one is `--console`; arguments after those change nothing. A target is taken as it is.
pub proof fn law_command_line_is_read_by_its_first_words(args: Seq<String>)
    ensures
        args.len() < 2 <==> invocation(args) is NoArguments,
        args.len() >= 2 ==> {
            let console = args[1]@ == "--console"@;
            let help = args[1]@ == "--help"@ || args[1]@ == "-h"@;
            &&& invocation(args) is MissingTarget <==> console && args.len() == 2
            &&& invocation(args) is Help <==> help && !console
            &&& invocation(args) is EmptyTarget <==> (console && args.len() >= 3
                && args[2]@.len() == 0) || (!console && !help && args[1]@.len() == 0)
            &&& invocation(args) is Console <==> console && args.len() >= 3 && args[2]@.len() > 0
            &&& invocation(args) is Gui <==> !console && !help && args[1]@.len() > 0
        },
        invocation(args) matches Invocation::Console(target) ==> target == args[2],
        invocation(args) matches Invocation::Gui(target) ==> target == args[1],
        args.len() >= 3 ==> invocation(args.take(3)) == invocation(args),
{
    if args.len() >= 3 {
        assert(args.take(3)[1] == args[1] && args.take(3)[2] == args[2]);
    }
}

/// A line of the report has the number of its hop, the address exactly where the hop has RTTs, and
/// the first three RTTs as far as there are so many.
pub proof fn law_report_lines_show_their_hops(hop: HopView)
    ensures
        ({
            let line = console_line(hop);
            &&& line.hop_number == hop.hop_number
            &&& line.ip is Some <==> hop.rtts.len() > 0
            &&& line.ip matches Some(ip) ==> ip == hop.ip
            &&& line.first is Some <==> hop.rtts.len() >= 1
            &&& line.first matches Some(rtt) ==> rtt == hop.rtts[0]
            &&& line.second is Some <==> hop.rtts.len() >= 2
            &&& line.second matches Some(rtt) ==> rtt == hop.rtts[1]
            &&& line.third is Some <==> hop.rtts.len() >= 3
            &&& line.third matches Some(rtt) ==> rtt == hop.rtts[2]
        }),
{
}

/// Hops with RTTs are counted one by one, and no others.
pub proof fn law_responding_hops_are_counted(hops: Seq<HopView>, hop: HopView)
    ensures
        responding(Seq::<HopView>::empty()) == 0,
        responding(hops.push(hop)) == responding(hops) + if hop.rtts.len() > 0 {
            1int
        } else {
            0
        },
        responding(hops) <= hops.len(),
    decreases hops.len(),
{
    reveal(Seq::filter);
    assert(hops.push(hop).drop_last() =~= hops);
    if hops.len() > 0 {
        law_responding_hops_are_counted(hops.drop_last(), hops.last());
        assert(hops.drop_last().push(hops.last()) =~= hops);
    }
}

/// The columns of a line with an address: the number ends at column 3, the address begins at
/// column 5, and the three probes end in columns of their own, each text whole and in its place.
/// A probe without an RTT is an asterisk. All columns between them are blank. An address of more
/// than 20 characters, or a probe of more than 8, moves what follows to the right.
pub proof fn law_report_has_columns(
    line: ConsoleLine,
    ip: Seq<char>,
    first: Seq<char>,
    second: Seq<char>,
    third: Seq<char>,
)
    requires
        line.ip is Some,
    ensures
        ({
            let text = layout(line, ip, first, second, third);
            let probe1 = if line.first is Some { first } else { seq!['*'] };
            let probe2 = if line.second is Some { second } else { seq!['*'] };
            let probe3 = if line.third is Some { third } else { seq!['*'] };
            let number = decimal(line.hop_number as nat);
            let ip_end = 5 + if ip.len() < 20 { 20 } else { ip.len() as int };
            let end1 = ip_end + 1 + if probe1.len() < 8 { 8 } else { probe1.len() as int };
            let end2 = end1 + 2 + if probe2.len() < 8 { 8 } else { probe2.len() as int };
            let end3 = end2 + 2 + if probe3.len() < 8 { 8 } else { probe3.len() as int };
            &&& text.len() == end3
            &&& text.subrange(3 - number.len(), 3) == number
            &&& text.subrange(5, 5int + ip.len()) == ip
            &&& text.subrange(end1 - probe1.len(), end1) == probe1
            &&& text.subrange(end2 - probe2.len(), end2) == probe2
            &&& text.subrange(end3 - probe3.len(), end3) == probe3
            &&& forall|i: int|
                (0 <= i < 3 - number.len() || 3 <= i < 5 || 5 + ip.len() <= i < end1 - probe1.len()
                    || end1 <= i < end2 - probe2.len() || end2 <= i < end3 - probe3.len())
                    ==> #[trigger] text[i] == ' '
        }),
{
    reveal_strlit("*");
    reveal_strlit(" ");
    reveal_strlit("  ");
    let text = layout(line, ip, first, second, third);
    let probe1 = if line.first is Some { first } else { seq!['*'] };
    let probe2 = if line.second is Some { second } else { seq!['*'] };
    let probe3 = if line.third is Some { third } else { seq!['*'] };
    assert("*"@ =~= seq!['*']);
    assert(" "@ =~= seq![' ']);
    assert("  "@ =~= seq![' ', ' ']);
    assert(probe_text(line.first, first) == probe1);
    assert(probe_text(line.second, second) == probe2);
    assert(probe_text(line.third, third) == probe3);
    let number = decimal(line.hop_number as nat);
    law_hop_numbers_have_three_digits(line.hop_number);
    let gap = seq![' ', ' '];
    let front = padded_left(number, 3, ' ') + gap + padded_right(ip, 20);
    let text1 = front + seq![' '] + padded_left(probe1, 8, ' ');
    let text2 = text1 + gap + padded_left(probe2, 8, ' ');
    let text3 = text2 + gap + padded_left(probe3, 8, ' ');
    assert(text == text3);
    lemma_first_columns(number, ip);
    lemma_column(front, seq![' '], probe1);
    lemma_column(text1, gap, probe2);
    lemma_column(text2, gap, probe3);
    lemma_three_columns(number, ip, front, text1, text2, text3, probe1, probe2, probe3);
}

/// Whether `text` is `before` and, after a gap of so many blanks, a column of at least 8
/// characters that ends with what it holds and is blank before it.
spec fn adds_column(before: Seq<char>, text: Seq<char>, gap: nat, held: Seq<char>) -> bool {
    let end = before.len() + gap + if held.len() < 8 { 8 } else { held.len() };
    &&& text.len() == end
    &&& forall|i: int| 0 <= i < before.len() ==> #[trigger] text[i] == before[i]
    &&& text.subrange(end - held.len(), end as int) == held
    &&& forall|i: int| before.len() <= i < end - held.len() ==> #[trigger] text[i] == ' '
}

proof fn lemma_column(before: Seq<char>, gap: Seq<char>, held: Seq<char>)
    requires
        forall|i: int| 0 <= i < gap.len() ==> #[trigger] gap[i] == ' ',
    ensures
        adds_column(before, before + gap + padded_left(held, 8, ' '), gap.len(), held),
{
    let text = before + gap + padded_left(held, 8, ' ');
    assert(text.subrange(text.len() - held.len(), text.len() as int) =~= held);
}

/// Whether the number stands at the left end of a text, and the address after it.
spec fn starts_with_hop(number: Seq<char>, ip: Seq<char>, text: Seq<char>) -> bool {
    let end = 5 + if ip.len() < 20 { 20 } else { ip.len() };
    &&& text.len() >= end
    &&& text.subrange(3 - number.len(), 3) == number
    &&& text.subrange(5, 5int + ip.len()) == ip
    &&& forall|i: int|
        (0 <= i < 3 - number.len() || 3 <= i < 5 || 5 + ip.len() <= i < end) ==> #[trigger] text[i]
            == ' '
}

proof fn lemma_first_columns(number: Seq<char>, ip: Seq<char>)
    requires
        1 <= number.len() <= 3,
    ensures
        starts_with_hop(
            number,
            ip,
            padded_left(number, 3, ' ') + seq![' ', ' '] + padded_right(ip, 20),
        ),
{
    let text = padded_left(number, 3, ' ') + seq![' ', ' '] + padded_right(ip, 20);
    assert(text.subrange(3 - number.len(), 3) =~= number);
    assert(text.subrange(5, 5int + ip.len()) =~= ip);
}

proof fn lemma_three_columns(
    number: Seq<char>,
    ip: Seq<char>,
    front: Seq<char>,
    text1: Seq<char>,
    text2: Seq<char>,
    text: Seq<char>,
    probe1: Seq<char>,
    probe2: Seq<char>,
    probe3: Seq<char>,
)
    requires
        1 <= number.len() <= 3,
        starts_with_hop(number, ip, front),
        front.len() == 5 + if ip.len() < 20 { 20 } else { ip.len() },
        adds_column(front, text1, 1, probe1),
        adds_column(text1, text2, 2, probe2),
        adds_column(text2, text, 2, probe3),
    ensures
        ({
            let end1 = text1.len() as int;
            let end2 = text2.len() as int;
            let end3 = text.len() as int;
            &&& text.subrange(3 - number.len(), 3) == number
            &&& text.subrange(5, 5int + ip.len()) == ip
            &&& text.subrange(end1 - probe1.len(), end1) == probe1
            &&& text.subrange(end2 - probe2.len(), end2) == probe2
            &&& text.subrange(end3 - probe3.len(), end3) == probe3
            &&& forall|i: int|
                (0 <= i < 3 - number.len() || 3 <= i < 5 || 5 + ip.len() <= i < end1 - probe1.len()
                    || end1 <= i < end2 - probe2.len() || end2 <= i < end3 - probe3.len())
                    ==> #[trigger] text[i] == ' '
        }),
{
    let end1 = text1.len() as int;
    let end2 = text2.len() as int;
    assert forall|i: int| 0 <= i < end1 implies #[trigger] text[i] == text1[i] by {
        assert(text[i] == text2[i]);
    }
    assert forall|i: int| 0 <= i < front.len() implies #[trigger] text[i] == front[i] by {
        assert(text[i] == text1[i]);
    }
    assert(text.subrange(3 - number.len(), 3) =~= front.subrange(3 - number.len(), 3));
    assert(text.subrange(5, 5int + ip.len()) =~= front.subrange(5, 5int + ip.len()));
    assert(text.subrange(end1 - probe1.len(), end1) =~= text1.subrange(
        end1 - probe1.len(),
        end1,
    ));
    assert(text.subrange(end2 - probe2.len(), end2) =~= text2.subrange(
        end2 - probe2.len(),
        end2,
    ));
    assert forall|i: int|
        (0 <= i < 3 - number.len() || 3 <= i < 5 || 5 + ip.len() <= i < end1 - probe1.len() || end1
            <= i < end2 - probe2.len() || end2 <= i < text.len() - probe3.len())
        implies #[trigger] text[i] == ' ' by {
        if i < front.len() {
            assert(front[i] == ' ');
        } else if i < end1 {
            assert(text1[i] == ' ');
        } else if i < end2 {
            assert(text2[i] == ' ');
        }
    }
}

/// The line of a hop without RTTs: its number, an asterisk in the place of the address, and three
/// asterisks for the probes.
pub proof fn law_silent_hops_have_asterisks(
    line: ConsoleLine,
    ip: Seq<char>,
    first: Seq<char>,
    second: Seq<char>,
    third: Seq<char>,
)
    requires
        line.ip is None,
        line.first is None,
        line.second is None,
        line.third is None,
    ensures
        ({
            let text = layout(line, ip, first, second, third);
            let number = decimal(line.hop_number as nat);
            &&& text.len() == 45
            &&& text.subrange(3 - number.len(), 3) == number
            &&& text[5] == '*' && text[26] == '*' && text[35] == '*' && text[44] == '*'
            &&& forall|i: int|
                (0 <= i < 3 - number.len() || 3 <= i < 45) && i != 5 && i != 26 && i != 35 && i
                    != 44 ==> #[trigger] text[i] == ' '
        }),
{
    reveal_strlit("*");
    reveal_strlit("  *                    ");
    reveal_strlit("        ");
    let text = layout(line, ip, first, second, third);
    let number = decimal(line.hop_number as nat);
    law_hop_numbers_have_three_digits(line.hop_number);
    let n = padded_left(number, 3, ' ');
    let star = seq!['*'];
    let gap = Seq::new(8, |i: int| ' ');
    let place = seq![' ', ' ', '*'] + Seq::new(20, |i: int| ' ');
    assert("*"@ =~= star);
    assert("        "@ =~= gap);
    assert("  *                    "@ =~= place);
    assert(text == n + place + star + gap + star + gap + star);
    assert(text.subrange(3 - number.len(), 3) =~= number);
}

/// A hop number has at least one and at most three digits.
pub proof fn law_hop_numbers_have_three_digits(hop_number: u8)
    ensures
        1 <= decimal(hop_number as nat).len() <= 3,
{
    reveal_with_fuel(decimal, 4);
}

} // verus!
