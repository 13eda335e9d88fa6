//! The local command channel's request and response types, with their
//! mathematical models.
//!
//! A gamma exponent travels as an unsigned count of thousandths
//! (`gamma_millis`), so 1000 stands for an exponent of 1; the wire
//! format and the contracts stay free of machine floating point.
use vstd::prelude::*;

verus! {

/// A request from a client to the daemon.
#[derive(Debug, PartialEq)]
pub enum IpcCommand {
    SetTemperature { kelvin: u32, gamma_millis: u32, outputs: Vec<String> },
    GetTemperature { outputs: Vec<String> },
    Kill {},
}

/// The daemon's reply to one request. `Temperature` carries one entry
/// per reported output: its name, its temperature in Kelvin and its
/// gamma exponent in thousandths.
#[derive(Debug, PartialEq)]
pub enum IpcResponse {
    Temperature { temperatures: Vec<(String, u32, u32)> },
    Success,
    Failure { message: String },
}

/// The model of a command: strings as character sequences.
pub enum CommandModel {
    SetTemperature { kelvin: u32, gamma_millis: u32, outputs: Seq<Seq<char>> },
    GetTemperature { outputs: Seq<Seq<char>> },
    Kill,
}

/// The model of a response.
pub enum ResponseModel {
    Temperature { temperatures: Seq<(Seq<char>, u32, u32)> },
    Success,
    Failure { message: Seq<char> },
}

impl View for IpcCommand {
    type V = CommandModel;

    open spec fn view(&self) -> CommandModel {
        match self {
            IpcCommand::SetTemperature { kelvin, gamma_millis, outputs } => {
                CommandModel::SetTemperature {
                    kelvin: *kelvin,
                    gamma_millis: *gamma_millis,
                    outputs: outputs.deep_view(),
                }
            },
            IpcCommand::GetTemperature { outputs } => {
                CommandModel::GetTemperature { outputs: outputs.deep_view() }
            },
            IpcCommand::Kill {  } => CommandModel::Kill,
        }
    }
}

/// The decimal digit characters of a number, most significant first.
pub open spec fn spec_decimal(n: nat) -> Seq<char>
    decreases n,
{
    if n < 10 {
        seq![dec_digit(n)]
    } else {
        spec_decimal(n / 10).push(dec_digit(n % 10))
    }
}

/// The character of one decimal digit.
pub open spec fn dec_digit(d: nat) -> char
    recommends
        d < 10,
{
    if d == 0 {
        '0'
    } else if d == 1 {
        '1'
    } else if d == 2 {
        '2'
    } else if d == 3 {
        '3'
    } else if d == 4 {
        '4'
    } else if d == 5 {
        '5'
    } else if d == 6 {
        '6'
    } else if d == 7 {
        '7'
    } else if d == 8 {
        '8'
    } else {
        '9'
    }
}

fn digit_str(d: u32) -> (r: String)
    requires
        d < 10,
    ensures
        r@ == seq![dec_digit(d as nat)],
{
    let s: &str = if d == 0 {
        "0"
    } else if d == 1 {
        "1"
    } else if d == 2 {
        "2"
    } else if d == 3 {
        "3"
    } else if d == 4 {
        "4"
    } else if d == 5 {
        "5"
    } else if d == 6 {
        "6"
    } else if d == 7 {
        "7"
    } else if d == 8 {
        "8"
    } else {
        "9"
    };
    proof {
        reveal_strlit("0");
        reveal_strlit("1");
        reveal_strlit("2");
        reveal_strlit("3");
        reveal_strlit("4");
        reveal_strlit("5");
        reveal_strlit("6");
        reveal_strlit("7");
        reveal_strlit("8");
        reveal_strlit("9");
        assert(s@ =~= seq![dec_digit(d as nat)]);
    }
    s.to_owned()
}

/// The decimal rendering of a number.
pub fn u32_decimal(n: u32) -> (r: String)
    ensures
        r@ == spec_decimal(n as nat),
    decreases n,
{
    if n < 10 {
        digit_str(n)
    } else {
        let mut s = u32_decimal(n / 10);
        let d = digit_str(n % 10);
        s.append(d.as_str());
        proof {
            assert(s@ =~= spec_decimal(n as nat));
        }
        s
    }
}

/// One line of the human-readable temperature report:
/// `<name>: <kelvin>K`.
pub open spec fn spec_render_entry(e: (Seq<char>, u32, u32)) -> Seq<char> {
    e.0 + ": "@ + spec_decimal(e.1 as nat) + "K\n"@
}

/// The lines of the human-readable temperature report, in order.
pub open spec fn spec_render_entries(es: Seq<(Seq<char>, u32, u32)>) -> Seq<char>
    decreases es.len(),
{
    if es.len() == 0 {
        Seq::empty()
    } else {
        spec_render_entries(es.drop_last()) + spec_render_entry(es.last())
    }
}

/// The human-readable rendering of a response: one line per reported
/// output, `Ok` on success, `Error: <message>` on failure.
pub open spec fn spec_render(r: ResponseModel) -> Seq<char> {
    match r {
        ResponseModel::Temperature { temperatures } => spec_render_entries(temperatures),
        ResponseModel::Success => "Ok\n"@,
        ResponseModel::Failure { message } => "Error: "@ + message + "\n"@,
    }
}

proof fn lemma_render_entries_step(es: Seq<(Seq<char>, u32, u32)>, i: int)
    requires
        0 <= i < es.len(),
    ensures
        spec_render_entries(es.take(i + 1)) == spec_render_entries(es.take(i)) + spec_render_entry(
            es[i],
        ),
{
    assert(es.take(i + 1).drop_last() =~= es.take(i));
    assert(es.take(i + 1).last() == es[i]);
}

impl IpcResponse {
    /// Render the response for a human reader.
    #[verifier::loop_isolation(false)]
    pub fn render(&self) -> (r: String)
        ensures
            r@ == spec_render(self@),
    {
        match self {
            IpcResponse::Temperature { temperatures } => {
                let ghost dv = temperatures.deep_view();
                let mut out = String::new();
                let mut i: usize = 0;
                while i < temperatures.len()
                    invariant
                        0 <= i <= temperatures@.len(),
                        out@ == spec_render_entries(dv.take(i as int)),
                    decreases temperatures@.len() - i,
                {
                    proof {
                        lemma_render_entries_step(dv, i as int);
                        assert(dv[i as int] == (temperatures@[i as int].0@,
                            temperatures@[i as int].1, temperatures@[i as int].2));
                    }
                    out.append(temperatures[i].0.as_str());
                    out.append(": ");
                    let num = u32_decimal(temperatures[i].1);
                    out.append(num.as_str());
                    out.append("K\n");
                    proof {
                        assert(out@ =~= spec_render_entries(dv.take(i as int + 1)));
                    }
                    i = i + 1;
                }
                proof {
                    assert(dv.take(dv.len() as int) =~= dv);
                }
                out
            },
            IpcResponse::Success => {
                let out: &str = "Ok\n";
                out.to_owned()
            },
            IpcResponse::Failure { message } => {
                let mut out: String = "Error: ".to_owned();
                out.append(message.as_str());
                out.append("\n");
                proof {
                    assert(out@ =~= spec_render(self@));
                }
                out
            },
        }
    }
}

impl View for IpcResponse {
    type V = ResponseModel;

    open spec fn view(&self) -> ResponseModel {
        match self {
            IpcResponse::Temperature { temperatures } => {
                ResponseModel::Temperature { temperatures: temperatures.deep_view() }
            },
            IpcResponse::Success => ResponseModel::Success,
            IpcResponse::Failure { message } => ResponseModel::Failure { message: message@ },
        }
    }
}

} // verus!
