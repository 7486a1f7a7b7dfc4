//! Commands: the text form that is sent to the source, and the argument lists
//! that are handed to the destination.
use crate::decimal::{dec_digits, u64_to_dec};
use vstd::prelude::*;
use vstd::string::*;

verus! {

/// One argument of a command for the destination.
#[derive(Debug)]
pub enum Arg {
    /// A byte string, sent as it is.
    Bytes(Vec<u8>),
    /// A number given as the 64 bits of an IEEE 754 double, sent as the
    /// decimal text of that number.
    Double(u64),
}

/// What an argument holds, as a mathematical value.
pub enum ArgView {
    Bytes(Seq<u8>),
    Double(u64),
}

impl View for Arg {
    type V = ArgView;

    open spec fn view(&self) -> ArgView {
        match self {
            Arg::Bytes(b) => ArgView::Bytes(b@),
            Arg::Double(d) => ArgView::Double(*d),
        }
    }
}

/// A command for the destination: its name, then its arguments, in order.
#[derive(Debug)]
pub struct Cmd {
    pub args: Vec<Arg>,
}

impl View for Cmd {
    type V = Seq<ArgView>;

    open spec fn view(&self) -> Seq<ArgView> {
        self.args@.map_values(|a: Arg| a@)
    }
}

/// The argument that holds the bytes of the text `s`.
pub open spec fn text(s: &str) -> ArgView {
    ArgView::Bytes(s.spec_bytes())
}

/// The argument that holds the bytes `b`.
pub open spec fn blob(b: Seq<u8>) -> ArgView {
    ArgView::Bytes(b)
}

/// The argument that holds the decimal digits of `n`.
pub open spec fn number(n: nat) -> ArgView {
    ArgView::Bytes(dec_digits(n))
}

/// The views of a list of commands.
pub open spec fn cmds_view(v: Seq<Cmd>) -> Seq<Seq<ArgView>> {
    v.map_values(|c: Cmd| c@)
}

/// The view of a list with one more command is the view of the list with
/// the view of the command behind it.
pub proof fn lemma_cmds_view_push(v: Seq<Cmd>, c: Cmd)
    ensures
        cmds_view(v.push(c)) == cmds_view(v).push(c@),
{
    assert(cmds_view(v.push(c)) =~= cmds_view(v).push(c@));
}

/// The view of two lists joined is the views of the lists joined.
pub proof fn lemma_cmds_view_add(a: Seq<Cmd>, b: Seq<Cmd>)
    ensures
        cmds_view(a + b) == cmds_view(a) + cmds_view(b),
{
    assert(cmds_view(a + b) =~= cmds_view(a) + cmds_view(b));
}

/// The view of no commands is no views.
pub proof fn lemma_cmds_view_empty()
    ensures
        cmds_view(Seq::<Cmd>::empty()) == Seq::<Seq<ArgView>>::empty(),
{
    assert(cmds_view(Seq::<Cmd>::empty()) =~= Seq::<Seq<ArgView>>::empty());
}

/// A list that holds the one command `c`.
pub fn one_cmd(c: Cmd) -> (r: Vec<Cmd>)
    ensures
        cmds_view(r@) == seq![c@],
{
    let mut out: Vec<Cmd> = Vec::new();
    out.push(c);
    assert(cmds_view(out@) =~= seq![c@]);
    out
}

/// The commands of `first` and then those of `second`.
pub fn join_cmds(first: Vec<Cmd>, second: Vec<Cmd>) -> (r: Vec<Cmd>)
    ensures
        cmds_view(r@) == cmds_view(first@) + cmds_view(second@),
{
    let mut out: Vec<Cmd> = first;
    let mut rest: Vec<Cmd> = second;
    proof {
        lemma_cmds_view_add(out@, rest@);
    }
    out.append(&mut rest);
    out
}

/// A copy of a byte vector.
pub fn copy_bytes(v: &Vec<u8>) -> (r: Vec<u8>)
    ensures
        r@ == v@,
{
    let mut out: Vec<u8> = Vec::new();
    let mut k: usize = 0;
    while k < v.len()
        invariant
            k <= v.len(),
            out@ == v@.subrange(0, k as int),
        decreases v.len() - k,
    {
        out.push(v[k]);
        k = k + 1;
        assert(out@ =~= v@.subrange(0, k as int));
    }
    assert(v@.subrange(0, k as int) =~= v@);
    out
}

/// Whether a byte vector holds exactly the bytes of a text.
pub fn bytes_are(v: &Vec<u8>, s: &str) -> (r: bool)
    ensures
        r == (v@ == s.spec_bytes()),
{
    let t: &[u8] = s.as_bytes();
    if v.len() != t.len() {
        return false;
    }
    let mut k: usize = 0;
    while k < v.len()
        invariant
            k <= v.len(),
            v.len() == t@.len(),
            t@ == s.spec_bytes(),
            v@.subrange(0, k as int) == t@.subrange(0, k as int),
        decreases v.len() - k,
    {
        if v[k] != t[k] {
            return false;
        }
        k = k + 1;
        assert(v@.subrange(0, k as int) =~= v@.subrange(0, k - 1).push(v@[k - 1]));
        assert(t@.subrange(0, k as int) =~= t@.subrange(0, k - 1).push(t@[k - 1]));
    }
    assert(v@.subrange(0, k as int) =~= v@);
    assert(t@.subrange(0, k as int) =~= t@);
    true
}

impl Arg {
    /// A copy of this argument.
    pub fn duplicate(&self) -> (r: Arg)
        ensures
            r@ == self@,
    {
        match self {
            Arg::Bytes(b) => Arg::Bytes(copy_bytes(b)),
            Arg::Double(d) => Arg::Double(*d),
        }
    }
}

impl Cmd {
    /// A command without a name or arguments.
    pub fn new() -> (c: Cmd)
        ensures
            c@ == Seq::<ArgView>::empty(),
    {
        let c = Cmd { args: Vec::new() };
        assert(c@ =~= Seq::<ArgView>::empty());
        c
    }

    /// The command named `name`, without arguments yet.
    pub fn named(name: &str) -> (c: Cmd)
        ensures
            c@ == seq![text(name)],
    {
        let mut args: Vec<Arg> = Vec::new();
        args.push(Arg::Bytes(name.as_bytes_vec()));
        let c = Cmd { args };
        assert(c@ =~= seq![text(name)]);
        c
    }

    /// This command with the bytes `a` as one more argument.
    pub fn arg(self, a: Vec<u8>) -> (c: Cmd)
        ensures
            c@ == self@.push(blob(a@)),
    {
        let mut args = self.args;
        let ghost before = args@;
        args.push(Arg::Bytes(a));
        let c = Cmd { args };
        assert(c@ =~= before.map_values(|a: Arg| a@).push(blob(a@)));
        c
    }

    /// This command with the text `s` as one more argument.
    pub fn arg_text(self, s: &str) -> (c: Cmd)
        ensures
            c@ == self@.push(text(s)),
    {
        self.arg(s.as_bytes_vec())
    }

    /// This command with the decimal digits of `n` as one more argument.
    pub fn arg_number(self, n: u64) -> (c: Cmd)
        ensures
            c@ == self@.push(number(n as nat)),
    {
        self.arg(u64_to_dec(n))
    }

    /// This command with one more argument: the number whose IEEE 754 double
    /// representation is `bits`.
    pub fn arg_double(self, bits: u64) -> (c: Cmd)
        ensures
            c@ == self@.push(ArgView::Double(bits)),
    {
        let mut args = self.args;
        let ghost before = args@;
        args.push(Arg::Double(bits));
        let c = Cmd { args };
        assert(c@ =~= before.map_values(|a: Arg| a@).push(ArgView::Double(bits)));
        c
    }

    /// A copy of this command.
    pub fn duplicate(&self) -> (c: Cmd)
        ensures
            c@ == self@,
    {
        let mut args: Vec<Arg> = Vec::new();
        let mut k: usize = 0;
        while k < self.args.len()
            invariant
                k <= self.args.len(),
                args@.map_values(|a: Arg| a@) == self@.subrange(0, k as int),
            decreases self.args.len() - k,
        {
            let ghost before = args@;
            args.push(self.args[k].duplicate());
            k = k + 1;
            proof {
                assert(self@[k - 1] == self.args@[k - 1]@);
                assert(self@.subrange(0, k as int) =~= self@.subrange(0, k - 1).push(self@[k - 1]));
                assert(args@.map_values(|a: Arg| a@) =~= before.map_values(|a: Arg| a@).push(
                    self@[k - 1],
                ));
            }
        }
        let c = Cmd { args };
        assert(self@.subrange(0, k as int) =~= self@);
        c
    }

    /// Whether the command has neither a name nor arguments.
    pub fn is_empty(&self) -> (b: bool)
        ensures
            b == (self@.len() == 0),
    {
        self.args.len() == 0
    }
}

/// One command of the stream that follows the snapshot, with its name set
/// apart.
#[derive(Debug)]
pub struct cmd_pack {
    /// The first argument of the frame: the name of the command.
    pub cmd_name: Vec<u8>,
    /// The whole command, its name included.
    pub cmd: Cmd,
}

/// The character of the decimal digit `d`.
pub open spec fn digit_char(d: int) -> char {
    if d == 0 {
        '0'
    } else if d == 1 {
        '1'
    } else if d == 2 {
        '2'
    } else if d == 3 {
        '3'
    } else if d == 4 {
        '4'
    } else if d == 5 {
        '5'
    } else if d == 6 {
        '6'
    } else if d == 7 {
        '7'
    } else if d == 8 {
        '8'
    } else {
        '9'
    }
}

/// The decimal digits of `n` as characters, without leading zeros.
pub open spec fn dec_chars(n: nat) -> Seq<char>
    decreases n,
{
    if n < 10 {
        seq![digit_char(n as int)]
    } else {
        dec_chars(n / 10).push(digit_char((n % 10) as int))
    }
}

/// One argument in the text form of a command: a dollar sign, the number of
/// bytes of the argument, a line end, the argument, a line end.
pub open spec fn resp_bulk(s: &str) -> Seq<char> {
    seq!['$'] + dec_chars(s.spec_bytes().len()) + seq!['\r', '\n'] + s@ + seq!['\r', '\n']
}

/// The arguments of a command in text form, one after the other.
pub open spec fn resp_args(cmd: Seq<&str>) -> Seq<char>
    decreases cmd.len(),
{
    if cmd.len() == 0 {
        Seq::empty()
    } else {
        resp_args(cmd.drop_last()) + resp_bulk(cmd.last())
    }
}

/// The text form of a command: an asterisk, the number of arguments, a line
/// end, then each argument.
pub open spec fn resp_text(cmd: Seq<&str>) -> Seq<char> {
    seq!['*'] + dec_chars(cmd.len()) + seq!['\r', '\n'] + resp_args(cmd)
}

/// The text of one decimal digit.
fn digit_str(d: u64) -> (s: &'static str)
    requires
        d < 10,
    ensures
        s@ == seq![digit_char(d as int)],
{
    proof {
        reveal_strlit("0");
        reveal_strlit("1");
        reveal_strlit("2");
        reveal_strlit("3");
        reveal_strlit("4");
        reveal_strlit("5");
        reveal_strlit("6");
        reveal_strlit("7");
        reveal_strlit("8");
        reveal_strlit("9");
    }
    let s: &'static str = if d == 0 {
        "0"
    } else if d == 1 {
        "1"
    } else if d == 2 {
        "2"
    } else if d == 3 {
        "3"
    } else if d == 4 {
        "4"
    } else if d == 5 {
        "5"
    } else if d == 6 {
        "6"
    } else if d == 7 {
        "7"
    } else if d == 8 {
        "8"
    } else {
        "9"
    };
    assert(s@ =~= seq![digit_char(d as int)]);
    s
}

/// Appends the decimal digits of `n` to `out`.
pub fn append_decimal(out: &mut String, n: u64)
    ensures
        final(out)@ == old(out)@ + dec_chars(n as nat),
    decreases n,
{
    if n >= 10 {
        append_decimal(out, n / 10);
    }
    out.append(digit_str(n % 10));
    proof {
        if n >= 10 {
            assert(final(out)@ =~= old(out)@ + dec_chars(n as nat));
        } else {
            assert(final(out)@ =~= old(out)@ + dec_chars(n as nat));
        }
    }
}

/// The text form in which a command is sent to the source.
pub fn cmd_to_string(cmd: Vec<&str>) -> (rsl: String)
    ensures
        rsl@ == resp_text(cmd@),
{
    proof {
        reveal_strlit("*");
        reveal_strlit("$");
        reveal_strlit("\r\n");
    }
    let mut rsl = String::new();
    rsl.append("*");
    append_decimal(&mut rsl, cmd.len() as u64);
    rsl.append("\r\n");
    let ghost head = rsl@;
    assert(head =~= seq!['*'] + dec_chars(cmd@.len()) + seq!['\r', '\n']);
    let mut k: usize = 0;
    assert(cmd@.subrange(0, 0) =~= Seq::<&str>::empty());
    while k < cmd.len()
        invariant
            k <= cmd.len(),
            "$"@ == seq!['$'],
            "\r\n"@ == seq!['\r', '\n'],
            rsl@ == head + resp_args(cmd@.subrange(0, k as int)),
        decreases cmd.len() - k,
    {
        let item: &str = cmd[k];
        let ghost before = rsl@;
        rsl.append("$");
        let width: usize = item.as_bytes().len();
        append_decimal(&mut rsl, width as u64);
        rsl.append("\r\n");
        rsl.append(item);
        rsl.append("\r\n");
        proof {
            let upto = cmd@.subrange(0, k + 1);
            assert(upto.drop_last() =~= cmd@.subrange(0, k as int));
            assert(upto.last() == item);
            assert(rsl@ =~= before + resp_bulk(item));
            assert(rsl@ =~= head + resp_args(upto));
        }
        k = k + 1;
    }
    assert(cmd@.subrange(0, k as int) =~= cmd@);
    rsl
}

} // verus!
