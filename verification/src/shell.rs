//! The kernel shell: what a command line asks for.
//!
//! A line is split into words at white space; the first word names the
//! command and the rest are its arguments. Decoding a line yields the action
//! to carry out, with its arguments checked.

use vstd::prelude::*;
use vstd::arithmetic::power2::is_pow2;
use crate::fb::{Color, spec_color_named};
use crate::console::{Console, ConsoleState, RenderOp, empty_cell, CELL_COUNT};
use crate::text::{split_whitespace, spec_words, parse_usize, spec_parse_usize, parse_hex_address,
    strip_repeated, is_power_of_two, str_eq};
use crate::fs::{Entry, entry_view};
use crate::fs::path::{lex_lt, path_before, lemma_lex_irreflexive, lemma_lex_transitive,
    lemma_lex_total};

verus! {

/// Alignment used when a command gives none: that of a `usize`.
pub const DEFAULT_ALIGN: usize = 8;

/// The color argument of `setbg` and `setfg`.
pub enum ColorChoice {
    /// No color was given.
    Missing,
    /// The given name is not a color.
    Unknown(String),
    /// A known color.
    Named(Color),
}

/// What `alloc!` asks for.
pub enum AllocRequest {
    /// No size was given.
    Usage,
    InvalidSize(String),
    ZeroSize,
    /// The alignment is not a number or not a power of two.
    InvalidAlign(String),
    /// Size and alignment do not form a layout.
    InvalidLayout { size: usize, align: usize },
    Allocate { size: usize, align: usize },
}

/// What `dealloc!` asks for.
pub enum DeallocRequest {
    /// The pointer or the size is missing.
    Usage,
    InvalidPointer(String),
    InvalidSize(String),
    InvalidAlign(String),
    InvalidLayout { size: usize, align: usize },
    NullPointer,
    Deallocate { addr: usize, size: usize, align: usize },
}

/// What a command line asks the shell to do.
pub enum ShellAction {
    /// The line holds no command.
    Nothing,
    Help,
    Clear,
    /// Print the words, separated by spaces.
    Echo(Vec<String>),
    Info,
    Panic,
    Breakpoint,
    Sven,
    Reboot,
    Shutdown,
    SetBackground(ColorChoice),
    SetForeground(ColorChoice),
    MemAnalyze,
    ToggleSerial,
    Alloc(AllocRequest),
    Dealloc(DeallocRequest),
    /// List a directory; the root when none is given.
    Ls(String),
    Mkdir(Option<String>),
    Touch(Option<String>),
    /// No command has this name.
    Unknown(String),
}

/// A color argument as a value.
pub enum SpecColorChoice {
    Missing,
    Unknown(Seq<char>),
    Named(Color),
}

/// An `alloc!` request as a value.
pub enum SpecAllocRequest {
    Usage,
    InvalidSize(Seq<char>),
    ZeroSize,
    InvalidAlign(Seq<char>),
    InvalidLayout { size: usize, align: usize },
    Allocate { size: usize, align: usize },
}

/// A `dealloc!` request as a value.
pub enum SpecDeallocRequest {
    Usage,
    InvalidPointer(Seq<char>),
    InvalidSize(Seq<char>),
    InvalidAlign(Seq<char>),
    InvalidLayout { size: usize, align: usize },
    NullPointer,
    Deallocate { addr: usize, size: usize, align: usize },
}

/// A shell action as a value.
pub enum SpecAction {
    Nothing,
    Help,
    Clear,
    Echo(Seq<Seq<char>>),
    Info,
    Panic,
    Breakpoint,
    Sven,
    Reboot,
    Shutdown,
    SetBackground(SpecColorChoice),
    SetForeground(SpecColorChoice),
    MemAnalyze,
    ToggleSerial,
    Alloc(SpecAllocRequest),
    Dealloc(SpecDeallocRequest),
    Ls(Seq<char>),
    Mkdir(Option<Seq<char>>),
    Touch(Option<Seq<char>>),
    Unknown(Seq<char>),
}

pub open spec fn color_choice_view(c: ColorChoice) -> SpecColorChoice {
    match c {
        ColorChoice::Missing => SpecColorChoice::Missing,
        ColorChoice::Unknown(s) => SpecColorChoice::Unknown(s@),
        ColorChoice::Named(c) => SpecColorChoice::Named(c),
    }
}

pub open spec fn alloc_view(a: AllocRequest) -> SpecAllocRequest {
    match a {
        AllocRequest::Usage => SpecAllocRequest::Usage,
        AllocRequest::InvalidSize(s) => SpecAllocRequest::InvalidSize(s@),
        AllocRequest::ZeroSize => SpecAllocRequest::ZeroSize,
        AllocRequest::InvalidAlign(s) => SpecAllocRequest::InvalidAlign(s@),
        AllocRequest::InvalidLayout { size, align } => SpecAllocRequest::InvalidLayout { size, align },
        AllocRequest::Allocate { size, align } => SpecAllocRequest::Allocate { size, align },
    }
}

pub open spec fn dealloc_view(d: DeallocRequest) -> SpecDeallocRequest {
    match d {
        DeallocRequest::Usage => SpecDeallocRequest::Usage,
        DeallocRequest::InvalidPointer(s) => SpecDeallocRequest::InvalidPointer(s@),
        DeallocRequest::InvalidSize(s) => SpecDeallocRequest::InvalidSize(s@),
        DeallocRequest::InvalidAlign(s) => SpecDeallocRequest::InvalidAlign(s@),
        DeallocRequest::InvalidLayout { size, align } => SpecDeallocRequest::InvalidLayout {
            size,
            align,
        },
        DeallocRequest::NullPointer => SpecDeallocRequest::NullPointer,
        DeallocRequest::Deallocate { addr, size, align } => SpecDeallocRequest::Deallocate {
            addr,
            size,
            align,
        },
    }
}

pub open spec fn action_view(a: ShellAction) -> SpecAction {
    match a {
        ShellAction::Nothing => SpecAction::Nothing,
        ShellAction::Help => SpecAction::Help,
        ShellAction::Clear => SpecAction::Clear,
        ShellAction::Echo(words) => SpecAction::Echo(words@.map_values(|w: String| w@)),
        ShellAction::Info => SpecAction::Info,
        ShellAction::Panic => SpecAction::Panic,
        ShellAction::Breakpoint => SpecAction::Breakpoint,
        ShellAction::Sven => SpecAction::Sven,
        ShellAction::Reboot => SpecAction::Reboot,
        ShellAction::Shutdown => SpecAction::Shutdown,
        ShellAction::SetBackground(c) => SpecAction::SetBackground(color_choice_view(c)),
        ShellAction::SetForeground(c) => SpecAction::SetForeground(color_choice_view(c)),
        ShellAction::MemAnalyze => SpecAction::MemAnalyze,
        ShellAction::ToggleSerial => SpecAction::ToggleSerial,
        ShellAction::Alloc(a) => SpecAction::Alloc(alloc_view(a)),
        ShellAction::Dealloc(d) => SpecAction::Dealloc(dealloc_view(d)),
        ShellAction::Ls(path) => SpecAction::Ls(path@),
        ShellAction::Mkdir(path) => SpecAction::Mkdir(
            match path {
                Some(p) => Some(p@),
                None => None,
            },
        ),
        ShellAction::Touch(path) => SpecAction::Touch(
            match path {
                Some(p) => Some(p@),
                None => None,
            },
        ),
        ShellAction::Unknown(name) => SpecAction::Unknown(name@),
    }
}

/// Whether `size` bytes aligned to the power of two `align` form a layout:
/// the size rounded up to the alignment must fit in an `isize`.
pub open spec fn layout_fits(size: usize, align: usize) -> bool {
    size + align - 1 <= isize::MAX
}

/// The color argument among `args`.
pub open spec fn spec_color_choice(args: Seq<Seq<char>>) -> SpecColorChoice {
    if args.len() == 0 {
        SpecColorChoice::Missing
    } else {
        match spec_color_named(args[0]) {
            Some(c) => SpecColorChoice::Named(c),
            None => SpecColorChoice::Unknown(args[0]),
        }
    }
}

/// The alignment among `args` at position `i`: the default when absent,
/// `None` when it is not a power of two.
pub open spec fn spec_align_arg(args: Seq<Seq<char>>, i: int) -> Option<usize> {
    if args.len() <= i {
        Some(DEFAULT_ALIGN)
    } else {
        match spec_parse_usize(args[i], 10) {
            Some(a) => if is_pow2(a as int) {
                Some(a)
            } else {
                None
            },
            None => None,
        }
    }
}

/// What `alloc! <size> [align]` asks for.
pub open spec fn spec_alloc_request(args: Seq<Seq<char>>) -> SpecAllocRequest {
    if args.len() == 0 {
        SpecAllocRequest::Usage
    } else {
        match spec_parse_usize(args[0], 10) {
            None => SpecAllocRequest::InvalidSize(args[0]),
            Some(size) => if size == 0 {
                SpecAllocRequest::ZeroSize
            } else {
                match spec_align_arg(args, 1) {
                    None => SpecAllocRequest::InvalidAlign(args[1]),
                    Some(align) => if !layout_fits(size, align) {
                        SpecAllocRequest::InvalidLayout { size, align }
                    } else {
                        SpecAllocRequest::Allocate { size, align }
                    },
                }
            },
        }
    }
}

/// What `dealloc! <ptr> <size> [align]` asks for; the pointer is
/// hexadecimal, with or without `0x`.
pub open spec fn spec_dealloc_request(args: Seq<Seq<char>>) -> SpecDeallocRequest {
    if args.len() < 2 {
        SpecDeallocRequest::Usage
    } else {
        let digits = strip_repeated(strip_repeated(args[0], seq!['0', 'x']), seq!['0', 'X']);
        match spec_parse_usize(digits, 16) {
            None => SpecDeallocRequest::InvalidPointer(args[0]),
            Some(addr) => match spec_parse_usize(args[1], 10) {
                None => SpecDeallocRequest::InvalidSize(args[1]),
                Some(size) => match spec_align_arg(args, 2) {
                    None => SpecDeallocRequest::InvalidAlign(args[2]),
                    Some(align) => if !layout_fits(size, align) {
                        SpecDeallocRequest::InvalidLayout { size, align }
                    } else if addr == 0 {
                        SpecDeallocRequest::NullPointer
                    } else {
                        SpecDeallocRequest::Deallocate { addr, size, align }
                    },
                },
            },
        }
    }
}

/// What a line whose words are `words` asks for.
pub open spec fn spec_execute(words: Seq<Seq<char>>) -> SpecAction {
    if words.len() == 0 {
        SpecAction::Nothing
    } else {
        let command = words[0];
        let args = words.drop_first();
        if command == "help"@ {
            SpecAction::Help
        } else if command == "clear"@ {
            SpecAction::Clear
        } else if command == "echo"@ {
            SpecAction::Echo(args)
        } else if command == "info"@ {
            SpecAction::Info
        } else if command == "panic"@ {
            SpecAction::Panic
        } else if command == "bp"@ {
            SpecAction::Breakpoint
        } else if command == "sven"@ {
            SpecAction::Sven
        } else if command == "reboot"@ {
            SpecAction::Reboot
        } else if command == "shutdown"@ || command == "exit"@ {
            SpecAction::Shutdown
        } else if command == "setbg"@ {
            SpecAction::SetBackground(spec_color_choice(args))
        } else if command == "setfg"@ {
            SpecAction::SetForeground(spec_color_choice(args))
        } else if command == "mem-analyze"@ {
            SpecAction::MemAnalyze
        } else if command == "tg-serial"@ {
            SpecAction::ToggleSerial
        } else if command == "alloc!"@ {
            SpecAction::Alloc(spec_alloc_request(args))
        } else if command == "dealloc!"@ {
            SpecAction::Dealloc(spec_dealloc_request(args))
        } else if command == "ls"@ {
            SpecAction::Ls(
                if args.len() == 0 {
                    "/"@
                } else {
                    args[0]
                },
            )
        } else if command == "mkdir"@ {
            SpecAction::Mkdir(
                if args.len() == 0 {
                    None
                } else {
                    Some(args[0])
                },
            )
        } else if command == "touch"@ {
            SpecAction::Touch(
                if args.len() == 0 {
                    None
                } else {
                    Some(args[0])
                },
            )
        } else {
            SpecAction::Unknown(command)
        }
    }
}

/// A copy of `s`.
fn copy_string(s: &String) -> (r: String)
    ensures
        r@ == s@,
{
    String::from_str(s.as_str())
}

/// The alignment argument at position `i`: exactly [`spec_align_arg`].
fn align_arg(args: &Vec<String>, i: usize) -> (r: Option<usize>)
    ensures
        r == spec_align_arg(args@.map_values(|w: String| w@), i as int),
{
    if args.len() <= i {
        return Some(DEFAULT_ALIGN);
    }
    match parse_usize(args[i].as_str(), 10) {
        Some(align) => {
            if is_power_of_two(align) {
                Some(align)
            } else {
                None
            }
        },
        None => None,
    }
}

/// Whether `size` and `align` form a layout: exactly [`layout_fits`].
fn layout_ok(size: usize, align: usize) -> (r: bool)
    requires
        align >= 1,
    ensures
        r == layout_fits(size, align),
{
    align - 1 <= isize::MAX as usize && size <= isize::MAX as usize - (align - 1)
}

/// Decode the arguments of `alloc!`.
fn alloc_request(args: &Vec<String>) -> (r: AllocRequest)
    ensures
        alloc_view(r) == spec_alloc_request(args@.map_values(|w: String| w@)),
{
    let ghost words = args@.map_values(|w: String| w@);
    if args.len() == 0 {
        return AllocRequest::Usage;
    }
    let size = match parse_usize(args[0].as_str(), 10) {
        Some(size) => size,
        None => return AllocRequest::InvalidSize(copy_string(&args[0])),
    };
    if size == 0 {
        return AllocRequest::ZeroSize;
    }
    let align = match align_arg(args, 1) {
        Some(align) => align,
        None => return AllocRequest::InvalidAlign(copy_string(&args[1])),
    };
    proof {
        reveal(is_pow2);
    }
    if !layout_ok(size, align) {
        return AllocRequest::InvalidLayout { size, align };
    }
    AllocRequest::Allocate { size, align }
}

/// Decode the arguments of `dealloc!`.
fn dealloc_request(args: &Vec<String>) -> (r: DeallocRequest)
    ensures
        dealloc_view(r) == spec_dealloc_request(args@.map_values(|w: String| w@)),
{
    if args.len() < 2 {
        return DeallocRequest::Usage;
    }
    let addr = match parse_hex_address(args[0].as_str()) {
        Some(addr) => addr,
        None => return DeallocRequest::InvalidPointer(copy_string(&args[0])),
    };
    let size = match parse_usize(args[1].as_str(), 10) {
        Some(size) => size,
        None => return DeallocRequest::InvalidSize(copy_string(&args[1])),
    };
    let align = match align_arg(args, 2) {
        Some(align) => align,
        None => return DeallocRequest::InvalidAlign(copy_string(&args[2])),
    };
    proof {
        reveal(is_pow2);
    }
    if !layout_ok(size, align) {
        return DeallocRequest::InvalidLayout { size, align };
    }
    if addr == 0 {
        return DeallocRequest::NullPointer;
    }
    DeallocRequest::Deallocate { addr, size, align }
}

/// Decode a color argument.
fn color_choice(args: &Vec<String>) -> (r: ColorChoice)
    ensures
        color_choice_view(r) == spec_color_choice(args@.map_values(|w: String| w@)),
{
    if args.len() == 0 {
        return ColorChoice::Missing;
    }
    match Color::from_name(args[0].as_str()) {
        Some(color) => ColorChoice::Named(color),
        None => ColorChoice::Unknown(copy_string(&args[0])),
    }
}

/// The first argument, if any.
fn first_arg(args: &Vec<String>) -> (r: Option<String>)
    ensures
        match r {
            Some(s) => args@.len() > 0 && s@ == args@[0]@,
            None => args@.len() == 0,
        },
{
    if args.len() == 0 {
        None
    } else {
        Some(copy_string(&args[0]))
    }
}

/// The console after `setbg` (`background`) or `setfg` with the color
/// `color`: the color is set, then the console is cleared, which blanks
/// every cell, homes the cursor and queues a clear in the new background.
pub open spec fn spec_console_colored(old: ConsoleState, color: Color, background: bool) -> ConsoleState {
    let bg = if background { color } else { old.background };
    let fg = if background { old.foreground } else { color };
    ConsoleState {
        cursor_x: 0,
        cursor_y: 0,
        foreground: fg,
        background: bg,
        cells: Seq::new(CELL_COUNT as nat, |i: int| empty_cell()),
        pending: old.pending.push(RenderOp::Clear { background: bg }),
        ..old
    }
}

/// Carry out `setbg` (`background`) or `setfg` on the console: a known
/// color is set and the console cleared, and `true` is returned; a missing
/// or unknown color leaves the console as it is and returns `false`, for
/// the caller to print the usage or the error.
pub fn apply_color_choice(console: &mut Console, choice: &ColorChoice, background: bool) -> (r: bool)
    requires
        old(console).wf(),
    ensures
        final(console).wf(),
        match *choice {
            ColorChoice::Named(color) => {
                &&& r
                &&& final(console).state() == spec_console_colored(old(console).state(), color, background)
                &&& final(console).input == old(console).input
                &&& final(console).input_len == 0
                &&& !final(console).line_ready
            },
            _ => !r && *final(console) == *old(console),
        },
{
    match choice {
        ColorChoice::Named(color) => {
            if background {
                console.set_background(*color);
            } else {
                console.set_foreground(*color);
            }
            console.clear();
            true
        },
        _ => false,
    }
}

/// Decode a command line: exactly [`spec_execute`] of its words.
pub fn execute(line: &str) -> (r: ShellAction)
    ensures
        action_view(r) == spec_execute(spec_words(line@)),
{
    proof {
        reveal_strlit("help");
        reveal_strlit("clear");
        reveal_strlit("echo");
        reveal_strlit("info");
        reveal_strlit("panic");
        reveal_strlit("bp");
        reveal_strlit("sven");
        reveal_strlit("reboot");
        reveal_strlit("shutdown");
        reveal_strlit("exit");
        reveal_strlit("setbg");
        reveal_strlit("setfg");
        reveal_strlit("mem-analyze");
        reveal_strlit("tg-serial");
        reveal_strlit("alloc!");
        reveal_strlit("dealloc!");
        reveal_strlit("ls");
        reveal_strlit("mkdir");
        reveal_strlit("touch");
        reveal_strlit("/");
    }
    let mut words = split_whitespace(line);
    let ghost all = words@.map_values(|w: String| w@);
    if words.len() == 0 {
        return ShellAction::Nothing;
    }
    let command = words.remove(0);
    let args = words;
    proof {
        assert(args@.map_values(|w: String| w@) =~= all.drop_first());
    }
    let name = command.as_str();
    if str_eq(name, "help") {
        ShellAction::Help
    } else if str_eq(name, "clear") {
        ShellAction::Clear
    } else if str_eq(name, "echo") {
        ShellAction::Echo(args)
    } else if str_eq(name, "info") {
        ShellAction::Info
    } else if str_eq(name, "panic") {
        ShellAction::Panic
    } else if str_eq(name, "bp") {
        ShellAction::Breakpoint
    } else if str_eq(name, "sven") {
        ShellAction::Sven
    } else if str_eq(name, "reboot") {
        ShellAction::Reboot
    } else if str_eq(name, "shutdown") || str_eq(name, "exit") {
        ShellAction::Shutdown
    } else if str_eq(name, "setbg") {
        ShellAction::SetBackground(color_choice(&args))
    } else if str_eq(name, "setfg") {
        ShellAction::SetForeground(color_choice(&args))
    } else if str_eq(name, "mem-analyze") {
        ShellAction::MemAnalyze
    } else if str_eq(name, "tg-serial") {
        ShellAction::ToggleSerial
    } else if str_eq(name, "alloc!") {
        ShellAction::Alloc(alloc_request(&args))
    } else if str_eq(name, "dealloc!") {
        ShellAction::Dealloc(dealloc_request(&args))
    } else if str_eq(name, "ls") {
        match first_arg(&args) {
            Some(path) => ShellAction::Ls(path),
            None => ShellAction::Ls(String::from_str("/")),
        }
    } else if str_eq(name, "mkdir") {
        ShellAction::Mkdir(first_arg(&args))
    } else if str_eq(name, "touch") {
        ShellAction::Touch(first_arg(&args))
    } else {
        ShellAction::Unknown(command)
    }
}

/// The entries of a listing, as values.
pub open spec fn entry_views(v: Seq<Entry>) -> Seq<(bool, Seq<char>)> {
    Seq::new(v.len(), |i: int| entry_view(v[i]))
}

/// Whether the entries are in order of name: no entry's name comes before
/// that of an entry listed earlier.
pub open spec fn sorted_by_name(s: Seq<(bool, Seq<char>)>) -> bool {
    forall|i: int, j: int| 0 <= i < j < s.len() ==> !lex_lt(#[trigger] s[j].1, #[trigger] s[i].1)
}

/// Whether an entry carries `name`.
pub open spec fn has_name(name: Seq<char>) -> spec_fn((bool, Seq<char>)) -> bool {
    |e: (bool, Seq<char>)| e.1 == name
}

/// The entries of a listing that carry `name`, in listing order.
pub open spec fn named(s: Seq<(bool, Seq<char>)>, name: Seq<char>) -> Seq<(bool, Seq<char>)> {
    s.filter(has_name(name))
}

/// No entry of `s` carries `name`.
proof fn lemma_named_none(s: Seq<(bool, Seq<char>)>, name: Seq<char>)
    requires
        forall|k: int| 0 <= k < s.len() ==> #[trigger] s[k].1 != name,
    ensures
        named(s, name) == Seq::<(bool, Seq<char>)>::empty(),
    decreases s.len(),
{
    reveal(Seq::filter);
    if s.len() > 0 {
        lemma_named_none(s.drop_last(), name);
    }
}

/// Putting an entry where every later entry's name comes after its own
/// adds it at the end of the entries of its name and leaves the other
/// names' entries as they were.
proof fn lemma_insert_named(
    before: Seq<(bool, Seq<char>)>,
    p: int,
    e: (bool, Seq<char>),
    name: Seq<char>,
)
    requires
        0 <= p <= before.len(),
        forall|k: int| p <= k < before.len() ==> lex_lt(e.1, #[trigger] before[k].1),
    ensures
        named(before.insert(p, e), name) == if e.1 == name {
            named(before, name).push(e)
        } else {
            named(before, name)
        },
{
    let pred = has_name(name);
    let a = before.subrange(0, p);
    let b = before.subrange(p, before.len() as int);
    assert(before =~= a + b);
    assert(before.insert(p, e) =~= a + seq![e] + b);
    Seq::filter_distributes_over_add(a + seq![e], b, pred);
    Seq::filter_distributes_over_add(a, seq![e], pred);
    Seq::filter_distributes_over_add(a, b, pred);
    Seq::<(bool, Seq<char>)>::empty().lemma_filter_push(e, pred);
    reveal(Seq::filter);
    assert(Seq::<(bool, Seq<char>)>::empty().push(e) =~= seq![e]);
    if e.1 == name {
        assert forall|k: int| 0 <= k < b.len() implies #[trigger] b[k].1 != name by {
            assert(lex_lt(e.1, before[p + k].1));
            lemma_lex_irreflexive(e.1);
        }
        lemma_named_none(b, name);
        assert(named(a, name) + named(b, name) =~= named(a, name));
        assert(named(a, name) + seq![e] =~= named(a, name).push(e));
    } else {
        assert(named(a, name) + Seq::<(bool, Seq<char>)>::empty() =~= named(a, name));
    }
}

/// The name of an entry.
fn entry_name(e: &Entry) -> (r: &str)
    ensures
        r@ == entry_view(*e).1,
{
    match e {
        Entry::File(name) => name.as_str(),
        Entry::Dir(name) => name.as_str(),
    }
}

/// Where an entry named `name` goes in a listing sorted by name: after every
/// entry whose name does not come after it.
fn insertion_point(sorted: &Vec<Entry>, name: &str) -> (p: usize)
    requires
        sorted_by_name(entry_views(sorted@)),
    ensures
        p <= sorted@.len(),
        forall|k: int| 0 <= k < p ==> !lex_lt(name@, #[trigger] entry_views(sorted@)[k].1),
        forall|k: int| p <= k < sorted@.len() ==> lex_lt(name@, #[trigger] entry_views(sorted@)[k].1),
{
    let ghost v = entry_views(sorted@);
    let mut i: usize = 0;
    while i < sorted.len()
        invariant
            v == entry_views(sorted@),
            sorted_by_name(v),
            i <= sorted@.len(),
            forall|k: int| 0 <= k < i ==> !lex_lt(name@, #[trigger] v[k].1),
        decreases sorted.len() - i,
    {
        if path_before(name, entry_name(&sorted[i])) {
            proof {
                assert forall|k: int| i <= k < sorted@.len() implies lex_lt(name@, #[trigger] v[k].1) by {
                    if k > i {
                        assert(!lex_lt(v[k].1, v[i as int].1));
                        if v[k].1 != v[i as int].1 {
                            lemma_lex_total(v[k].1, v[i as int].1);
                            lemma_lex_transitive(name@, v[i as int].1, v[k].1);
                        }
                    }
                }
            }
            return i;
        }
        i = i + 1;
    }
    i
}

/// The entries of a listing in order of name; entries with the same name
/// keep their order. The result holds the same entries.
pub fn sort_by_name(entries: Vec<Entry>) -> (r: Vec<Entry>)
    ensures
        sorted_by_name(entry_views(r@)),
        entry_views(r@).to_multiset() == entry_views(entries@).to_multiset(),
        forall|name: Seq<char>| #[trigger] named(entry_views(r@), name) == named(
            entry_views(entries@),
            name,
        ),
{
    let ghost input = entry_views(entries@);
    let mut rest = entries;
    let mut sorted: Vec<Entry> = Vec::new();
    let ghost mut taken: int = 0;
    proof {
        assert(entry_views(rest@) =~= input.subrange(0, input.len() as int));
        assert(entry_views(sorted@) =~= input.subrange(0, 0));
    }
    while rest.len() > 0
        invariant
            0 <= taken <= input.len(),
            entry_views(rest@) == input.subrange(taken, input.len() as int),
            sorted_by_name(entry_views(sorted@)),
            entry_views(sorted@).to_multiset() == input.subrange(0, taken).to_multiset(),
            forall|name: Seq<char>| #[trigger] named(entry_views(sorted@), name) == named(
                input.subrange(0, taken),
                name,
            ),
        decreases rest.len(),
    {
        let ghost old_rest = rest@;
        proof {
            assert(entry_views(old_rest).len() == old_rest.len());
            assert(entry_views(old_rest)[0] == input[taken]);
        }
        let e = rest.remove(0);
        let ghost ev = entry_view(e);
        proof {
            assert(ev == input[taken]);
            assert(rest@ =~= old_rest.subrange(1, old_rest.len() as int));
            assert forall|k: int| 0 <= k < rest@.len() implies #[trigger] entry_views(rest@)[k]
                == entry_views(old_rest)[k + 1] by {
                assert(rest@[k] == old_rest[k + 1]);
            }
            assert(entry_views(rest@) =~= input.subrange(taken + 1, input.len() as int));
        }
        let p = insertion_point(&sorted, entry_name(&e));
        let ghost before = entry_views(sorted@);
        sorted.insert(p, e);
        proof {
            assert(entry_views(sorted@) =~= before.insert(p as int, ev));
            assert(input.subrange(0, taken + 1) =~= input.subrange(0, taken).push(ev));
            vstd::seq_lib::to_multiset_build(input.subrange(0, taken), ev);
            assert(before.len() == sorted@.len() - 1);
            vstd::seq_lib::to_multiset_insert(before, p as int, ev);
            assert(entry_views(sorted@).to_multiset() == input.subrange(0, taken + 1).to_multiset());
            let after = entry_views(sorted@);
            assert forall|i: int, j: int| 0 <= i < j < after.len() implies !lex_lt(
                #[trigger] after[j].1,
                #[trigger] after[i].1,
            ) by {
                if j == p {
                    assert(after[i] == before[i]);
                } else if i == p {
                    assert(after[j] == before[j - 1]);
                    assert(lex_lt(ev.1, before[j - 1].1));
                    if lex_lt(before[j - 1].1, ev.1) {
                        lemma_lex_transitive(ev.1, before[j - 1].1, ev.1);
                        lemma_lex_irreflexive(ev.1);
                    }
                } else {
                    let bi = if i < p { i } else { i - 1 };
                    let bj = if j < p { j } else { j - 1 };
                    assert(after[i] == before[bi] && after[j] == before[bj]);
                }
            }
            assert forall|name: Seq<char>| #[trigger] named(after, name) == named(
                input.subrange(0, taken + 1),
                name,
            ) by {
                lemma_insert_named(before, p as int, ev, name);
                input.subrange(0, taken).lemma_filter_push(ev, has_name(name));
            }
            taken = taken + 1;
        }
    }
    proof {
        assert(input.subrange(0, taken) =~= input);
    }
    sorted
}

} // verus!
