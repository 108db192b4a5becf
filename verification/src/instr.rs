//! Circuit instructions and their textual rendering.
//!
//! The translation produces a sequence of instructions; the final artifact
//! is their text forms joined with line breaks.  Five instruction forms
//! exist — basis change, measure-and-reset, controlled gate, row-boundary
//! marker, parity check — plus a comment-only diagnostic line for
//! unsupported vertex shapes.

use vstd::prelude::*;

verus! {

/// One line of the output program.
#[derive(Clone, PartialEq, Eq, Debug)]
pub enum Instr {
    /// Single-qubit basis-change instruction (`H`).
    BasisChange { qubit: usize },
    /// Measure-and-reset instruction (`MR`); produces one measurement record.
    MeasureReset { qubit: usize },
    /// Two-qubit controlled instruction (`CNOT control target`).
    Controlled { control: usize, target: usize },
    /// Row-boundary marker (`TICK`), one per time row.
    Tick,
    /// Parity-check instruction (`DETECTOR`) over relative record offsets;
    /// offset `k` refers to the record taken `k` measurements ago.
    ParityCheck { offsets: Vec<usize> },
    /// Comment-only diagnostic for a vertex of unsupported degree.
    Diagnostic { degree: usize, vertex: usize },
}

/// The mathematical view of an instruction.
pub enum InstrV {
    BasisChange { qubit: usize },
    MeasureReset { qubit: usize },
    Controlled { control: usize, target: usize },
    Tick,
    ParityCheck { offsets: Seq<usize> },
    Diagnostic { degree: usize, vertex: usize },
}

impl View for Instr {
    type V = InstrV;

    open spec fn view(&self) -> InstrV {
        match self {
            Instr::BasisChange { qubit } => InstrV::BasisChange { qubit: *qubit },
            Instr::MeasureReset { qubit } => InstrV::MeasureReset { qubit: *qubit },
            Instr::Controlled { control, target } => InstrV::Controlled {
                control: *control,
                target: *target,
            },
            Instr::Tick => InstrV::Tick,
            Instr::ParityCheck { offsets } => InstrV::ParityCheck { offsets: offsets@ },
            Instr::Diagnostic { degree, vertex } => InstrV::Diagnostic {
                degree: *degree,
                vertex: *vertex,
            },
        }
    }
}

/// The views of a sequence of instructions.
pub open spec fn instrs_view(s: Seq<Instr>) -> Seq<InstrV> {
    s.map_values(|i: Instr| i@)
}

/// Appending an instruction appends its view.
pub proof fn lemma_instrs_view_push(s: Seq<Instr>, x: Instr)
    ensures
        instrs_view(s.push(x)) =~= instrs_view(s).push(x@),
{
}

/// The decimal digit character for `d` in `0..10`.
pub open spec fn digit_char(d: int) -> char {
    if d == 0 {
        '0'
    } else if d == 1 {
        '1'
    } else if d == 2 {
        '2'
    } else if d == 3 {
        '3'
    } else if d == 4 {
        '4'
    } else if d == 5 {
        '5'
    } else if d == 6 {
        '6'
    } else if d == 7 {
        '7'
    } else if d == 8 {
        '8'
    } else {
        '9'
    }
}

/// The decimal numeral of `n`, most significant digit first.
pub open spec fn dec_str(n: nat) -> Seq<char>
    decreases n,
{
    if n < 10 {
        seq![digit_char(n as int)]
    } else {
        dec_str(n / 10).push(digit_char((n % 10) as int))
    }
}

/// The text of one parity-check term: ` rec[-k]`.
pub open spec fn term_str(o: usize) -> Seq<char> {
    " rec[-"@ + dec_str(o as nat) + "]"@
}

/// The text of a list of parity-check terms, in order.
pub open spec fn terms_str(os: Seq<usize>) -> Seq<char>
    decreases os.len(),
{
    if os.len() == 0 {
        Seq::empty()
    } else {
        terms_str(os.drop_last()) + term_str(os.last())
    }
}

/// The text of one instruction line.
pub open spec fn instr_str(i: InstrV) -> Seq<char> {
    match i {
        InstrV::BasisChange { qubit } => "H "@ + dec_str(qubit as nat),
        InstrV::MeasureReset { qubit } => "MR "@ + dec_str(qubit as nat),
        InstrV::Controlled { control, target } => "CNOT "@ + dec_str(control as nat) + " "@
            + dec_str(target as nat),
        InstrV::Tick => "TICK"@,
        InstrV::ParityCheck { offsets } => "DETECTOR"@ + terms_str(offsets),
        InstrV::Diagnostic { degree, vertex } => "# Unsupported node degree "@ + dec_str(
            degree as nat,
        ) + ": "@ + dec_str(vertex as nat),
    }
}

/// The whole program: instruction lines joined with line breaks, no
/// trailing break.
pub open spec fn render_spec(s: Seq<InstrV>) -> Seq<char>
    decreases s.len(),
{
    if s.len() == 0 {
        Seq::empty()
    } else if s.len() == 1 {
        instr_str(s[0])
    } else {
        render_spec(s.drop_last()) + seq!['\n'] + instr_str(s.last())
    }
}

/// A one-character string for the decimal digit `d`.
fn digit_lit(d: u64) -> (r: &'static str)
    requires
        d < 10,
    ensures
        r@ == seq![digit_char(d as int)],
{
    if d == 0 {
        proof {
            reveal_strlit("0");
            assert("0"@ =~= seq![digit_char(0)]);
        }
        "0"
    } else if d == 1 {
        proof {
            reveal_strlit("1");
            assert("1"@ =~= seq![digit_char(1)]);
        }
        "1"
    } else if d == 2 {
        proof {
            reveal_strlit("2");
            assert("2"@ =~= seq![digit_char(2)]);
        }
        "2"
    } else if d == 3 {
        proof {
            reveal_strlit("3");
            assert("3"@ =~= seq![digit_char(3)]);
        }
        "3"
    } else if d == 4 {
        proof {
            reveal_strlit("4");
            assert("4"@ =~= seq![digit_char(4)]);
        }
        "4"
    } else if d == 5 {
        proof {
            reveal_strlit("5");
            assert("5"@ =~= seq![digit_char(5)]);
        }
        "5"
    } else if d == 6 {
        proof {
            reveal_strlit("6");
            assert("6"@ =~= seq![digit_char(6)]);
        }
        "6"
    } else if d == 7 {
        proof {
            reveal_strlit("7");
            assert("7"@ =~= seq![digit_char(7)]);
        }
        "7"
    } else if d == 8 {
        proof {
            reveal_strlit("8");
            assert("8"@ =~= seq![digit_char(8)]);
        }
        "8"
    } else {
        proof {
            reveal_strlit("9");
            assert("9"@ =~= seq![digit_char(9)]);
        }
        "9"
    }
}

/// Appends the decimal numeral of `n` to `s`.
fn push_dec(s: &mut String, n: u64)
    ensures
        final(s)@ == old(s)@ + dec_str(n as nat),
    decreases n,
{
    if n >= 10 {
        push_dec(s, n / 10);
    }
    s.append(digit_lit(n % 10));
    proof {
        if n >= 10 {
            assert(final(s)@ == old(s)@ + dec_str((n / 10) as nat).push(
                digit_char((n % 10) as int),
            ));
            assert(dec_str((n / 10) as nat).push(digit_char((n % 10) as int)) =~= dec_str(
                (n / 10) as nat,
            ) + seq![digit_char((n % 10) as int)]);
            assert(old(s)@ + dec_str((n / 10) as nat) + seq![digit_char((n % 10) as int)] =~= old(
                s,
            )@ + dec_str(n as nat));
        } else {
            assert(old(s)@ + seq![digit_char((n % 10) as int)] =~= old(s)@ + dec_str(n as nat));
        }
    }
}

/// Appends the text of one instruction to `s`.
fn push_instr(s: &mut String, i: &Instr)
    ensures
        final(s)@ == old(s)@ + instr_str(i@),
{
    match i {
        Instr::BasisChange { qubit } => {
            s.append("H ");
            push_dec(s, *qubit as u64);
            proof {
                assert(old(s)@ + "H "@ + dec_str(*qubit as nat) =~= old(s)@ + ("H "@ + dec_str(
                    *qubit as nat,
                )));
            }
        },
        Instr::MeasureReset { qubit } => {
            s.append("MR ");
            push_dec(s, *qubit as u64);
            proof {
                assert(old(s)@ + "MR "@ + dec_str(*qubit as nat) =~= old(s)@ + ("MR "@ + dec_str(
                    *qubit as nat,
                )));
            }
        },
        Instr::Controlled { control, target } => {
            s.append("CNOT ");
            push_dec(s, *control as u64);
            s.append(" ");
            push_dec(s, *target as u64);
            proof {
                assert(old(s)@ + "CNOT "@ + dec_str(*control as nat) + " "@ + dec_str(
                    *target as nat,
                ) =~= old(s)@ + ("CNOT "@ + dec_str(*control as nat) + " "@ + dec_str(
                    *target as nat,
                )));
            }
        },
        Instr::Tick => {
            s.append("TICK");
        },
        Instr::ParityCheck { offsets } => {
            s.append("DETECTOR");
            let mut j: usize = 0;
            while j < offsets.len()
                invariant
                    j <= offsets@.len(),
                    s@ == old(s)@ + "DETECTOR"@ + terms_str(offsets@.subrange(0, j as int)),
                decreases offsets@.len() - j,
            {
                let ghost pre = s@;
                s.append(" rec[-");
                push_dec(s, offsets[j] as u64);
                s.append("]");
                proof {
                    let done = offsets@.subrange(0, j + 1);
                    assert(done.drop_last() =~= offsets@.subrange(0, j as int));
                    assert(done.last() == offsets@[j as int]);
                    assert(s@ =~= pre + term_str(offsets@[j as int]));
                    assert(s@ =~= old(s)@ + "DETECTOR"@ + terms_str(done));
                }
                j = j + 1;
            }
            proof {
                assert(offsets@.subrange(0, offsets@.len() as int) =~= offsets@);
            }
        },
        Instr::Diagnostic { degree, vertex } => {
            s.append("# Unsupported node degree ");
            push_dec(s, *degree as u64);
            s.append(": ");
            push_dec(s, *vertex as u64);
            proof {
                assert(old(s)@ + "# Unsupported node degree "@ + dec_str(*degree as nat) + ": "@
                    + dec_str(*vertex as nat) =~= old(s)@ + ("# Unsupported node degree "@
                    + dec_str(*degree as nat) + ": "@ + dec_str(*vertex as nat)));
            }
        },
    }
}

/// Renders an instruction sequence as the final program text: instruction
/// lines joined with line breaks.
pub fn render_instrs(instrs: &Vec<Instr>) -> (s: String)
    ensures
        s@ == render_spec(instrs_view(instrs@)),
{
    let mut s = String::new();
    let ghost iv = instrs_view(instrs@);
    let mut i: usize = 0;
    while i < instrs.len()
        invariant
            i <= instrs@.len(),
            iv == instrs_view(instrs@),
            iv.len() == instrs@.len(),
            s@ == render_spec(iv.subrange(0, i as int)),
        decreases instrs@.len() - i,
    {
        let ghost pre = s@;
        if i > 0 {
            s.append("\n");
        }
        push_instr(&mut s, &instrs[i]);
        proof {
            let done = iv.subrange(0, i + 1);
            assert(done.drop_last() =~= iv.subrange(0, i as int));
            assert(done.last() == iv[i as int]);
            assert(iv[i as int] == instrs@[i as int]@);
            if i == 0 {
                assert(pre =~= Seq::<char>::empty());
                assert(s@ =~= instr_str(done[0]));
            } else {
                assert(s@ =~= render_spec(done.drop_last()) + seq!['\n'] + instr_str(done.last()))
                    by {
                    reveal_strlit("\n");
                    assert("\n"@ =~= seq!['\n']);
                    assert(s@ =~= pre + "\n"@ + instr_str(iv[i as int]));
                };
            }
            assert(s@ == render_spec(done));
        }
        i = i + 1;
    }
    proof {
        assert(iv.subrange(0, iv.len() as int) =~= iv);
    }
    s
}

} // verus!
