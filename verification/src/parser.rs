//! The assembler: source text to an instruction list and a dictionary.
//!
//! `parse` folds the tokens into a main body and a list of named word
//! bodies; `finalize` lays the program out as the main body, an implicit
//! `Halt`, then every word body in definition order, and computes each
//! word's entry address from that final layout, so no address can ever
//! go stale.  A malformed definition — `;` outside a definition, `:`
//! inside one, `:` with no name after it, or input ending inside a
//! definition — is a `MalformedDefinition` error, never silently
//! dropped.

use vstd::prelude::*;
use crate::instr::{Instruction, Instr, prog_view, lemma_prog_view_concat};
use crate::vm::dict_view;
use crate::token::{
    tokenize,
    tokenize_spec,
    token_views,
    str_eq,
    parse_i32,
    is_int_literal,
    literal_val,
};

verus! {

/// The one way parsing fails: a definition structure that is not
/// `: name body ;`.
#[derive(Debug, Clone, Copy, PartialEq, Eq, Structural)]
pub enum ParseError {
    MalformedDefinition,
}

/// Ghost state of the assembler: the main body, and the named word
/// bodies in definition order.
pub struct ParseState {
    pub main: Seq<Instr>,
    pub defs: Seq<(Seq<char>, Seq<Instr>)>,
}

/// The instruction a plain token assembles to: an integer literal
/// pushes its value, a built-in name its operation, and any other
/// token a call through the dictionary.
pub open spec fn token_instr(t: Seq<char>) -> Instr {
    if is_int_literal(t) {
        Instr::Push(literal_val(t) as i32)
    } else if t == "dup"@ {
        Instr::Dup
    } else if t == "drop"@ {
        Instr::Drop
    } else if t == "swap"@ {
        Instr::Swap
    } else if t == "over"@ {
        Instr::Over
    } else if t == "rot"@ {
        Instr::Rot
    } else if t == "nip"@ {
        Instr::Nip
    } else if t == "tuck"@ {
        Instr::Tuck
    } else if t == "2dup"@ {
        Instr::TwoDup
    } else if t == "2drop"@ {
        Instr::TwoDrop
    } else if t == "2swap"@ {
        Instr::TwoSwap
    } else if t == "+"@ {
        Instr::Add
    } else if t == "*"@ {
        Instr::Mul
    } else if t == "depth"@ {
        Instr::Depth
    } else {
        Instr::CallWord(t)
    }
}

/// The fold of the tokens into a parse state.  `:` opens a definition
/// and takes the next token as the word's name; `;` closes it,
/// appending `Return` to the body; every other token assembles into the
/// open definition's body, or into the main body outside one.
pub open spec fn parse_toks(
    main: Seq<Instr>,
    defs: Seq<(Seq<char>, Seq<Instr>)>,
    defining: Option<(Seq<char>, Seq<Instr>)>,
    toks: Seq<Seq<char>>,
) -> Result<ParseState, ParseError>
    decreases toks.len(),
{
    if toks.len() == 0 {
        if defining is Some {
            Err(ParseError::MalformedDefinition)
        } else {
            Ok(ParseState { main, defs })
        }
    } else if toks[0] == ":"@ {
        if defining is Some {
            Err(ParseError::MalformedDefinition)
        } else if toks.len() < 2 {
            Err(ParseError::MalformedDefinition)
        } else {
            parse_toks(
                main,
                defs,
                Some((toks[1], Seq::empty())),
                toks.subrange(2, toks.len() as int),
            )
        }
    } else if toks[0] == ";"@ {
        match defining {
            Option::None => Err(ParseError::MalformedDefinition),
            Option::Some((name, body)) => parse_toks(
                main,
                defs.push((name, body.push(Instr::Return))),
                None,
                toks.drop_first(),
            ),
        }
    } else {
        match defining {
            Option::Some((name, body)) => parse_toks(
                main,
                defs,
                Some((name, body.push(token_instr(toks[0])))),
                toks.drop_first(),
            ),
            Option::None => parse_toks(
                main.push(token_instr(toks[0])),
                defs,
                None,
                toks.drop_first(),
            ),
        }
    }
}

/// The ghost image of the owned word bodies.
pub open spec fn defs_view(ds: Seq<(String, Vec<Instruction>)>) -> Seq<(Seq<char>, Seq<Instr>)> {
    ds.map_values(|d: (String, Vec<Instruction>)| (d.0@, prog_view(d.1@)))
}

/// The word bodies laid out back to back, in definition order.
pub open spec fn defs_code(ds: Seq<(Seq<char>, Seq<Instr>)>) -> Seq<Instr>
    decreases ds.len(),
{
    if ds.len() == 0 {
        Seq::empty()
    } else {
        ds[0].1 + defs_code(ds.drop_first())
    }
}

/// The entry address of each word under that layout, the bodies
/// starting at `base`; a name defined twice keeps its later address.
pub open spec fn defs_dict(ds: Seq<(Seq<char>, Seq<Instr>)>, base: int) -> Map<Seq<char>, usize>
    decreases ds.len(),
{
    if ds.len() == 0 {
        Map::empty()
    } else {
        defs_dict(ds.drop_last(), base).insert(
            ds.last().0,
            (base + defs_code(ds.drop_last()).len()) as usize,
        )
    }
}

/// Laying out one more body appends it after the others.
pub proof fn lemma_defs_code_push(ds: Seq<(Seq<char>, Seq<Instr>)>, d: (Seq<char>, Seq<Instr>))
    ensures
        defs_code(ds.push(d)) == defs_code(ds) + d.1,
    decreases ds.len(),
{
    if ds.len() == 0 {
        assert(ds.push(d).drop_first() =~= Seq::<(Seq<char>, Seq<Instr>)>::empty());
        assert(defs_code(Seq::<(Seq<char>, Seq<Instr>)>::empty()) == Seq::<Instr>::empty());
        assert(ds.push(d)[0] == d);
        assert(defs_code(ds.push(d)) == d.1 + Seq::<Instr>::empty());
        assert(defs_code(ds.push(d)) =~= defs_code(ds) + d.1);
    } else {
        assert(ds.push(d).drop_first() =~= ds.drop_first().push(d));
        lemma_defs_code_push(ds.drop_first(), d);
        assert(ds.push(d)[0] == ds[0]);
        assert(defs_code(ds.push(d)) == ds[0].1 + (defs_code(ds.drop_first()) + d.1));
        assert(defs_code(ds) == ds[0].1 + defs_code(ds.drop_first()));
        assert(defs_code(ds.push(d)) =~= defs_code(ds) + d.1);
    }
}

/// The assembler.  `main` collects the instructions outside any
/// definition; `definitions` the word bodies, each ending in the
/// `Return` that `;` appends.
pub struct Parser {
    pub main: Vec<Instruction>,
    pub definitions: Vec<(String, Vec<Instruction>)>,
}

impl Parser {
    /// The ghost image of this assembler's buffers.
    pub open spec fn pview(self) -> ParseState {
        ParseState { main: prog_view(self.main@), defs: defs_view(self.definitions@) }
    }

    /// A fresh assembler with empty buffers.
    pub fn new() -> (p: Self)
        ensures
            p.main@ == Seq::<Instruction>::empty(),
            p.definitions@ == Seq::<(String, Vec<Instruction>)>::empty(),
    {
        Self { main: Vec::new(), definitions: Vec::new() }
    }

    /// Assembles `input`, extending the buffers: afterwards they hold
    /// exactly the fold of the input's tokens over their prior
    /// contents.  Fails with `MalformedDefinition` exactly when that
    /// fold does — the buffers then hold a partial translation and the
    /// assembler is not to be used further.
    pub fn parse(&mut self, input: &str) -> (r: Result<(), ParseError>)
        ensures
            (match r {
                Ok(_) => parse_toks(
                    old(self).pview().main,
                    old(self).pview().defs,
                    None::<(Seq<char>, Seq<Instr>)>,
                    tokenize_spec(input@),
                ) == Ok::<ParseState, ParseError>(final(self).pview()),
                Err(e) => parse_toks(
                    old(self).pview().main,
                    old(self).pview().defs,
                    None::<(Seq<char>, Seq<Instr>)>,
                    tokenize_spec(input@),
                ) == Err::<ParseState, ParseError>(e),
            }),
    {
        let tokens = tokenize(input);
        let ghost all = token_views(tokens@);
        let n = tokens.len();
        let mut k: usize = 0;
        let mut in_def: bool = false;
        let mut def_name: String = String::new();
        let mut buffer: Vec<Instruction> = Vec::new();
        proof {
            assert(all.subrange(0, n as int) =~= all);
        }
        while k < n
            invariant
                k <= n,
                n == tokens@.len(),
                all == token_views(tokens@),
                all == tokenize_spec(input@),
                parse_toks(
                    self.pview().main,
                    self.pview().defs,
                    (if in_def {
                        Some((def_name@, prog_view(buffer@)))
                    } else {
                        None::<(Seq<char>, Seq<Instr>)>
                    }),
                    all.subrange(k as int, n as int),
                ) == parse_toks(
                    old(self).pview().main,
                    old(self).pview().defs,
                    None::<(Seq<char>, Seq<Instr>)>,
                    all,
                ),
            decreases n - k,
        {
            let ghost rem = all.subrange(k as int, n as int);
            proof {
                assert(rem[0] == tokens@[k as int]@);
            }
            let tok = &tokens[k];
            if str_eq(tok.as_str(), ":") {
                if in_def {
                    proof {
                        assert(parse_toks(
                            self.pview().main,
                            self.pview().defs,
                            Some((def_name@, prog_view(buffer@))),
                            rem,
                        ) == Err::<ParseState, ParseError>(ParseError::MalformedDefinition));
                    }
                    return Err(ParseError::MalformedDefinition);
                }
                if k + 1 >= n {
                    proof {
                        assert(rem.len() < 2);
                        assert(parse_toks(
                            self.pview().main,
                            self.pview().defs,
                            None::<(Seq<char>, Seq<Instr>)>,
                            rem,
                        ) == Err::<ParseState, ParseError>(ParseError::MalformedDefinition));
                    }
                    return Err(ParseError::MalformedDefinition);
                }
                def_name = tokens[k + 1].clone();
                buffer = Vec::new();
                in_def = true;
                k = k + 2;
                proof {
                    assert(rem[1] == tokens@[k - 1]@);
                    assert(prog_view(buffer@) =~= Seq::<Instr>::empty());
                    assert(all.subrange(k as int, n as int) =~= rem.subrange(2, rem.len() as int));
                }
            } else if str_eq(tok.as_str(), ";") {
                if !in_def {
                    proof {
                        assert(parse_toks(
                            self.pview().main,
                            self.pview().defs,
                            None::<(Seq<char>, Seq<Instr>)>,
                            rem,
                        ) == Err::<ParseState, ParseError>(ParseError::MalformedDefinition));
                    }
                    return Err(ParseError::MalformedDefinition);
                }
                let ghost pre_defs = defs_view(self.definitions@);
                let ghost pre_buf = prog_view(buffer@);
                buffer.push(Instruction::Return);
                let nm = def_name;
                def_name = String::new();
                let bd = buffer;
                buffer = Vec::new();
                self.definitions.push((nm, bd));
                in_def = false;
                k = k + 1;
                proof {
                    assert(prog_view(bd@) =~= pre_buf.push(Instr::Return));
                    assert(defs_view(self.definitions@) =~= pre_defs.push(
                        (nm@, pre_buf.push(Instr::Return)),
                    ));
                    assert(prog_view(buffer@) =~= Seq::<Instr>::empty());
                    assert(all.subrange(k as int, n as int) =~= rem.drop_first());
                }
            } else {
                let ghost pre_main = prog_view(self.main@);
                let ghost pre_buf = prog_view(buffer@);
                let instr = token_to_instr(tok);
                if in_def {
                    buffer.push(instr);
                    proof {
                        assert(prog_view(buffer@) =~= pre_buf.push(token_instr(rem[0])));
                    }
                } else {
                    self.main.push(instr);
                    proof {
                        assert(prog_view(self.main@) =~= pre_main.push(token_instr(rem[0])));
                    }
                }
                k = k + 1;
                proof {
                    assert(all.subrange(k as int, n as int) =~= rem.drop_first());
                }
            }
        }
        proof {
            assert(all.subrange(k as int, n as int) =~= Seq::<Seq<char>>::empty());
        }
        if in_def {
            proof {
                assert(parse_toks(
                    self.pview().main,
                    self.pview().defs,
                    Some((def_name@, prog_view(buffer@))),
                    all.subrange(k as int, n as int),
                ) == Err::<ParseState, ParseError>(ParseError::MalformedDefinition));
            }
            return Err(ParseError::MalformedDefinition);
        }
        Ok(())
    }

    /// Lays the program out — main body, implicit `Halt`, then every
    /// word body in definition order — and yields it with the
    /// dictionary of each word's entry address in that layout.  The
    /// assembler is consumed.
    pub fn finalize(self) -> (r: (Vec<Instruction>, Vec<(String, usize)>))
        ensures
            prog_view(r.0@) == self.pview().main.push(Instr::Halt) + defs_code(self.pview().defs),
            dict_view(r.1@) == defs_dict(self.pview().defs, self.main@.len() as int + 1),
    {
        let Parser { main: mut instructions, definitions: mut defs } = self;
        let ghost main0 = prog_view(instructions@);
        let ghost defs0 = defs_view(defs@);
        let ghost total = defs0.len() as int;
        let ghost base = instructions@.len() as int + 1;
        instructions.push(Instruction::Halt);
        proof {
            assert(prog_view(instructions@) =~= main0.push(Instr::Halt));
            assert(prog_view(instructions@) =~= main0.push(Instr::Halt) + defs_code(
                defs0.take(0),
            ));
            assert(defs_view(defs@) =~= defs0.subrange(0, total));
            assert(defs0.take(0) =~= Seq::<(Seq<char>, Seq<Instr>)>::empty());
        }
        let mut dict: Vec<(String, usize)> = Vec::new();
        proof {
            assert(dict_view(dict@) =~= defs_dict(defs0.take(0), base));
        }
        let ghost mut processed: int = 0;
        while defs.len() > 0
            invariant
                0 <= processed <= total,
                total == defs0.len(),
                defs_view(defs@) == defs0.subrange(processed, total),
                prog_view(instructions@) == main0.push(Instr::Halt) + defs_code(
                    defs0.take(processed),
                ),
                dict_view(dict@) == defs_dict(defs0.take(processed), base),
                instructions@.len() == base + defs_code(defs0.take(processed)).len(),
            decreases defs@.len(),
        {
            let ghost p = processed;
            let ghost pre_dict = dict_view(dict@);
            let ghost pre_code = prog_view(instructions@);
            let ghost dpre = defs@;
            proof {
                assert(defs_view(dpre).len() == dpre.len());
                assert(0 <= p < total);
                assert(defs0.subrange(p, total)[0] == defs0[p]);
                assert(defs_view(dpre)[0] == (dpre[0].0@, prog_view(dpre[0].1@)));
            }
            let entry = defs.remove(0);
            let ghost ename = entry.0@;
            let ghost ebody = prog_view(entry.1@);
            proof {
                assert((ename, ebody) == defs0[p]);
                assert(ename == defs0[p].0);
                assert(ebody == defs0[p].1);
            }
            let name = entry.0;
            let mut body = entry.1;
            let addr = instructions.len();
            let ghost dict_pre_seq = dict@;
            dict.push((name, addr));
            let ghost ipre = instructions@;
            let ghost bpre = body@;
            instructions.append(&mut body);
            proof {
                processed = p + 1;
                lemma_defs_code_push(defs0.take(p), defs0[p]);
                assert(defs0.take(p + 1).drop_last() =~= defs0.take(p));
                assert(defs0.take(p + 1).last() == defs0[p]);
                assert(defs_view(defs@).len() == defs@.len());
                assert forall|j: int| 0 <= j < defs@.len() implies defs_view(defs@)[j] == defs0[p
                    + 1 + j] by {
                    assert(defs@[j] == dpre[j + 1]);
                    assert(defs_view(dpre)[j + 1] == (dpre[j + 1].0@, prog_view(dpre[j + 1].1@)));
                    assert(defs_view(dpre)[j + 1] == defs0.subrange(p, total)[j + 1]);
                    assert(defs_view(defs@)[j] == (defs@[j].0@, prog_view(defs@[j].1@)));
                }
                assert(defs_view(defs@) =~= defs0.subrange(p + 1, total));
                lemma_prog_view_concat(ipre, bpre);
                assert(prog_view(instructions@) == prog_view(ipre) + ebody);
                assert(defs0.take(p + 1) =~= defs0.take(p).push(defs0[p]));
                assert(defs_code(defs0.take(p + 1)) == defs_code(defs0.take(p)) + ebody);
                assert(prog_view(instructions@) =~= main0.push(Instr::Halt) + defs_code(
                    defs0.take(p + 1),
                ));
                assert(dict@.drop_last() =~= dict_pre_seq);
                assert(dict@.last().0@ == ename);
                assert(dict@.last().1 == addr);
                assert(dict_view(dict@) == pre_dict.insert(ename, addr));
                assert(addr as int == base + defs_code(defs0.take(p)).len());
                assert(dict_view(dict@) == defs_dict(defs0.take(p + 1), base));
            }
        }
        proof {
            assert(defs0.take(total) =~= defs0);
            assert(defs0.subrange(processed, total).len() == 0);
        }
        (instructions, dict)
    }
}

/// Assembles one plain token (one that is neither `:` nor `;`).
pub fn token_to_instr(t: &String) -> (r: Instruction)
    ensures
        r@ == token_instr(t@),
{
    match parse_i32(t.as_str()) {
        Some(v) => Instruction::Push(v),
        None => {
            if str_eq(t.as_str(), "dup") {
                Instruction::Dup
            } else if str_eq(t.as_str(), "drop") {
                Instruction::Drop
            } else if str_eq(t.as_str(), "swap") {
                Instruction::Swap
            } else if str_eq(t.as_str(), "over") {
                Instruction::Over
            } else if str_eq(t.as_str(), "rot") {
                Instruction::Rot
            } else if str_eq(t.as_str(), "nip") {
                Instruction::Nip
            } else if str_eq(t.as_str(), "tuck") {
                Instruction::Tuck
            } else if str_eq(t.as_str(), "2dup") {
                Instruction::TwoDup
            } else if str_eq(t.as_str(), "2drop") {
                Instruction::TwoDrop
            } else if str_eq(t.as_str(), "2swap") {
                Instruction::TwoSwap
            } else if str_eq(t.as_str(), "+") {
                Instruction::Add
            } else if str_eq(t.as_str(), "*") {
                Instruction::Mul
            } else if str_eq(t.as_str(), "depth") {
                Instruction::Depth
            } else {
                Instruction::CallWord(t.clone())
            }
        },
    }
}

} // verus!
