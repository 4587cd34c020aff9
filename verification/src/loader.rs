//! The assembler: reads a source text line by line into a table of
//! functions, with placeholders for the targets of jumps and calls, and
//! puts offsets and indices in their place when a function, and then the
//! text, has ended.

use vstd::prelude::*;
use vstd::slice::slice_subrange;
use vstd::string::*;
use super::assembler::{
    assemble, bindings_after, lemma_assembled_is_well_formed, lemma_link_stays_failed,
    lemma_resolve_branches_fails, lemma_resolve_calls_fails, link, position, resolve_branch,
    resolve_branches, resolve_call, resolve_calls, unit_names, zeros, Draft, LoaderView, Unit,
};
use super::assembly::{Assembly, AssemblyView, FuncDef, FuncView, ManagedFuncDef};
use super::instructions::Inst;
use super::syntax::{
    directive, instruction, parse_operand, read_instruction, statement, LoadError, Op,
    Operation, Statement,
};
use super::text::{field, find, same_text, split, trim, Fields};

verus! {

/// A label with the offset that it stands for.
struct Binding {
    label: String,
    offset: usize,
}

/// The assembler's working state. It is fresh before a text is read and
/// after one was read.
pub struct Loader {
    /// The functions whose text has ended. Their calls hold placeholders.
    functions: Vec<ManagedFuncDef>,
    /// The labels that were declared since the last instruction.
    pending_labels: Vec<String>,
    /// The labels of the current function that stand for an offset; of two
    /// with one name, the later one counts.
    label_offsets: Vec<Binding>,
    /// The labels that the current function jumps to, each once. A jump
    /// holds the index of its label in this list as its placeholder.
    labels: Vec<String>,
    /// The function that the lines now belong to. Its jumps and calls hold
    /// placeholders.
    current_func: Option<ManagedFuncDef>,
    /// The names of the functions that were called, each once. A call holds
    /// the index of its name in this list as its placeholder.
    called_names: Vec<String>,
}

/// The texts of the strings.
spec fn texts(strings: Seq<String>) -> Seq<Seq<char>> {
    Seq::new(strings.len(), |i: int| strings[i]@)
}

/// What an instruction with placeholders stands for. In a function whose
/// text has ended (`sealed`), only calls hold placeholders.
spec fn decode(inst: Inst, sealed: bool, labels: Seq<Seq<char>>, callees: Seq<Seq<char>>) -> Op {
    match inst {
        Inst::jump(placeholder) => if sealed {
            Op::Plain(inst)
        } else {
            Op::Jump(labels[placeholder as int])
        },
        Inst::beq(placeholder) => if sealed {
            Op::Plain(inst)
        } else {
            Op::Beq(labels[placeholder as int])
        },
        Inst::call(placeholder) => Op::Call(callees[placeholder as int]),
        other => Op::Plain(other),
    }
}

/// What a body with placeholders stands for.
spec fn decode_body(
    body: Seq<Inst>,
    sealed: bool,
    labels: Seq<Seq<char>>,
    callees: Seq<Seq<char>>,
) -> Seq<Op> {
    Seq::new(body.len(), |i: int| decode(body[i], sealed, labels, callees))
}

/// Whether the placeholders of a body are indices into the lists of names.
spec fn placeholders_fit(body: Seq<Inst>, sealed: bool, labels: nat, callees: nat) -> bool {
    forall|i: int|
        0 <= i < body.len() ==> match #[trigger] body[i] {
            Inst::jump(placeholder) => sealed || placeholder < labels,
            Inst::beq(placeholder) => sealed || placeholder < labels,
            Inst::call(placeholder) => placeholder < callees,
            _ => true,
        }
}

/// The offsets that labels stand for after they were bound in this order.
spec fn bindings(entries: Seq<Binding>) -> Map<Seq<char>, nat>
    decreases entries.len(),
{
    if entries.len() == 0 {
        Map::empty()
    } else {
        bindings(entries.drop_last()).insert(entries.last().label@, entries.last().offset as nat)
    }
}

/// A finished function of the loader as the assembler's state has it.
spec fn unit_of(function: ManagedFuncDef, callees: Seq<Seq<char>>) -> Unit {
    Unit {
        name: function.name@,
        args: function.args,
        returns: function.returns,
        locals: function.default_locals@,
        body: decode_body(function.body@, true, Seq::empty(), callees),
    }
}

impl View for Loader {
    type V = LoaderView;

    closed spec fn view(&self) -> LoaderView {
        let callees = texts(self.called_names@);
        LoaderView {
            finished: Seq::new(
                self.functions@.len(),
                |i: int| unit_of(self.functions@[i], callees),
            ),
            current: match self.current_func {
                None => None,
                Some(function) => Some(
                    Draft {
                        name: function.name@,
                        args: function.args,
                        returns: function.returns,
                        locals: function.default_locals@,
                        body: decode_body(function.body@, false, texts(self.labels@), callees),
                        labels: bindings_after(
                            bindings(self.label_offsets@),
                            texts(self.pending_labels@),
                            function.body@.len(),
                        ),
                    },
                ),
            },
            callees,
        }
    }
}

impl Loader {
    /// The placeholders are indices into the lists of names, and every
    /// count is one that an instruction can hold.
    pub closed spec fn well_formed(&self) -> bool {
        &&& self.called_names@.len() <= u16::MAX + 1
        &&& forall|i: int|
            0 <= i < self.functions@.len() ==> placeholders_fit(
                (#[trigger] self.functions@[i]).body@,
                true,
                0,
                self.called_names@.len(),
            )
        &&& match self.current_func {
            None => true,
            Some(function) => {
                &&& placeholders_fit(
                    function.body@,
                    false,
                    self.labels@.len(),
                    self.called_names@.len(),
                )
                &&& self.labels@.len() <= function.body@.len() <= u32::MAX
            },
        }
    }

    /// Nothing was read yet.
    pub closed spec fn is_fresh(&self) -> bool {
        &&& self.functions@.len() == 0
        &&& self.pending_labels@.len() == 0
        &&& self.label_offsets@.len() == 0
        &&& self.labels@.len() == 0
        &&& self.current_func is None
        &&& self.called_names@.len() == 0
    }

    proof fn lemma_fresh(&self)
        requires
            self.is_fresh(),
        ensures
            self.well_formed(),
            self@ == LoaderView::fresh(),
    {
        assert(self@.finished =~= LoaderView::fresh().finished);
        assert(self@.callees =~= LoaderView::fresh().callees);
    }

    /// A loader in the state before the first line of a text: no function
    /// has ended, none is current, and no function was called.
    pub fn new() -> (loader: Loader)
        ensures
            loader.is_fresh(),
            loader@ == LoaderView::fresh(),
    {
        let loader = Loader {
            functions: Vec::new(),
            pending_labels: Vec::new(),
            label_offsets: Vec::new(),
            labels: Vec::new(),
            current_func: None,
            called_names: Vec::new(),
        };
        proof {
            loader.lemma_fresh();
        }
        loader
    }

    /// Drops what was read.
    fn reset(&mut self)
        ensures
            final(self).is_fresh(),
    {
        self.functions = Vec::new();
        self.pending_labels.clear();
        self.label_offsets.clear();
        self.labels.clear();
        self.current_func = None;
        self.called_names.clear();
    }
}

/// `String::from_iter` of the standard library, on a slice of characters:
/// the string that holds these characters in their order.
#[verifier::external_body]
fn string_of(chars: &[char]) -> (s: String)
    ensures
        s@ == chars@,
{
    String::from_iter(chars)
}

/// The index of the first of `names` that is `name`.
fn position_of(names: &Vec<String>, name: &String) -> (r: Option<usize>)
    ensures
        match r {
            Some(at) => position(texts(names@), name@) == Some(at as nat) && at < names@.len()
                && names@[at as int]@ == name@,
            None => position(texts(names@), name@) is None && !texts(names@).contains(name@),
        },
{
    let ghost all = texts(names@);
    let mut i: usize = 0;
    assert(all.skip(0) =~= all);
    while i < names.len()
        invariant
            i <= names@.len(),
            all == texts(names@),
            forall|j: int| 0 <= j < i ==> all[j] != name@,
            position(all, name@) == match position(all.skip(i as int), name@) {
                Some(at) => Some(at + i as nat),
                None => None,
            },
        decreases names@.len() - i,
    {
        assert(all.skip(i as int)[0] == names@[i as int]@);
        if names[i] == *name {
            return Some(i);
        }
        assert(all.skip(i as int).drop_first() =~= all.skip(i + 1));
        i += 1;
    }
    None
}

/// Whether `short` is the start of `long`.
spec fn starts(long: Seq<Seq<char>>, short: Seq<Seq<char>>) -> bool {
    &&& short.len() <= long.len()
    &&& forall|i: int| 0 <= i < short.len() ==> long[i] == short[i]
}

/// A body stands for the same instructions when names are added to the
/// lists that its placeholders point into.
proof fn lemma_decode_stable(
    body: Seq<Inst>,
    sealed: bool,
    labels: Seq<Seq<char>>,
    callees: Seq<Seq<char>>,
    more_labels: Seq<Seq<char>>,
    more_callees: Seq<Seq<char>>,
)
    requires
        placeholders_fit(body, sealed, labels.len(), callees.len()),
        starts(more_labels, labels),
        starts(more_callees, callees),
    ensures
        decode_body(body, sealed, more_labels, more_callees) == decode_body(
            body,
            sealed,
            labels,
            callees,
        ),
        placeholders_fit(body, sealed, more_labels.len(), more_callees.len()),
{
    assert(decode_body(body, sealed, more_labels, more_callees) =~= decode_body(
        body,
        sealed,
        labels,
        callees,
    ));
}

/// The index of `value` in the list, which is added to the list where it
/// is not in it.
fn get_index_for(set: &mut Vec<String>, value: String) -> (index: usize)
    ensures
        index < final(set)@.len(),
        texts(final(set)@)[index as int] == value@,
        starts(texts(final(set)@), texts(old(set)@)),
        texts(final(set)@) == if texts(old(set)@).contains(value@) {
            texts(old(set)@)
        } else {
            texts(old(set)@).push(value@)
        },
{
    match position_of(set, &value) {
        Some(index) => {
            assert(texts(set@)[index as int] == value@);
            index
        },
        None => {
            set.push(value);
            assert(texts(set@) =~= texts(old(set)@).push(value@));
            set.len() - 1
        },
    }
}

impl Loader {
    /// The placeholder of a label of the current function.
    fn get_placeholder_for_label(&mut self, label: &[char]) -> (placeholder: u32)
        requires
            old(self).labels@.len() < u32::MAX,
        ensures
            *final(self) == (Loader { labels: final(self).labels, ..*old(self) }),
            placeholder < final(self).labels@.len(),
            final(self).labels@.len() <= old(self).labels@.len() + 1,
            texts(final(self).labels@)[placeholder as int] == label@,
            starts(texts(final(self).labels@), texts(old(self).labels@)),
    {
        get_index_for(&mut self.labels, string_of(label)) as u32
    }

    /// The placeholder of a called function. There are at most 65536 of
    /// them.
    fn get_placeholder_for_func(&mut self, name: &[char]) -> (r: Result<u16, LoadError>)
        requires
            old(self).called_names@.len() <= u16::MAX + 1,
        ensures
            *final(self) == (Loader { called_names: final(self).called_names, ..*old(self) }),
            final(self).called_names@.len() <= u16::MAX + 1,
            starts(texts(final(self).called_names@), texts(old(self).called_names@)),
            match r {
                Ok(placeholder) => {
                    &&& placeholder < final(self).called_names@.len()
                    &&& texts(final(self).called_names@)[placeholder as int] == name@
                    &&& texts(final(self).called_names@) == if texts(
                        old(self).called_names@,
                    ).contains(name@) {
                        texts(old(self).called_names@)
                    } else {
                        texts(old(self).called_names@).push(name@)
                    }
                    &&& texts(old(self).called_names@).contains(name@) || old(
                        self,
                    ).called_names@.len() <= u16::MAX
                },
                Err(error) => {
                    &&& error == LoadError::LimitExceeded
                    &&& !texts(old(self).called_names@).contains(name@)
                    &&& old(self).called_names@.len() > u16::MAX
                    &&& final(self).called_names == old(self).called_names
                },
            },
    {
        let owned = string_of(name);
        match position_of(&self.called_names, &owned) {
            Some(index) => {
                assert(texts(self.called_names@)[index as int] == name@);
                Ok(index as u16)
            },
            None => {
                if self.called_names.len() > u16::MAX as usize {
                    return Err(LoadError::LimitExceeded);
                }
                let index = get_index_for(&mut self.called_names, owned);
                Ok(index as u16)
            },
        }
    }

    /// Binds the labels that were declared since the last instruction to
    /// the offset of the instruction that comes next.
    fn save_pending_labels(&mut self)
        requires
            old(self).current_func is Some,
        ensures
            *final(self) == (Loader {
                pending_labels: final(self).pending_labels,
                label_offsets: final(self).label_offsets,
                ..*old(self)
            }),
            final(self).pending_labels@.len() == 0,
            bindings(final(self).label_offsets@) == bindings_after(
                bindings(old(self).label_offsets@),
                texts(old(self).pending_labels@),
                old(self).current_func->0.body@.len(),
            ),
    {
        let position = match &self.current_func {
            Some(function) => function.body.len(),
            None => 0,
        };
        let ghost known = bindings(self.label_offsets@);
        let ghost pending = texts(self.pending_labels@);
        let n = self.pending_labels.len();
        let mut i: usize = 0;
        assert(pending.take(0) =~= Seq::<Seq<char>>::empty());
        while i < n
            invariant
                i <= n == self.pending_labels@.len(),
                pending == texts(self.pending_labels@),
                self.pending_labels == old(self).pending_labels,
                self.functions == old(self).functions,
                self.labels == old(self).labels,
                self.current_func == old(self).current_func,
                self.called_names == old(self).called_names,
                bindings(self.label_offsets@) == bindings_after(
                    known,
                    pending.take(i as int),
                    position as nat,
                ),
            decreases n - i,
        {
            let label = self.pending_labels[i].clone();
            let ghost before = self.label_offsets@;
            self.label_offsets.push(Binding { label, offset: position });
            proof {
                assert(self.label_offsets@.drop_last() =~= before);
                assert(pending.take(i + 1).drop_last() =~= pending.take(i as int));
                assert(pending.take(i + 1).last() == self.pending_labels@[i as int]@);
            }
            i += 1;
        }
        assert(pending.take(n as int) =~= pending);
        self.pending_labels.clear();
    }
}

/// Whether an outcome of the loader is the one that is expected: on
/// success the state is the expected one, on failure the error is.
spec fn agrees(
    r: Result<(), LoadError>,
    after: LoaderView,
    expected: Result<LoaderView, LoadError>,
) -> bool {
    match r {
        Ok(()) => expected == Ok::<LoaderView, LoadError>(after),
        Err(error) => expected == Err::<LoaderView, LoadError>(error),
    }
}

/// The state after a statement that was read with or without success.
spec fn fed(before: LoaderView, stated: Result<Statement, LoadError>) -> Result<
    LoaderView,
    LoadError,
> {
    match stated {
        Err(error) => Err(error),
        Ok(statement) => before.feed(statement),
    }
}

impl Loader {
    /// Declares a label at the place of the instruction that comes next.
    fn parse_label(&mut self, label: &[char])
        requires
            old(self).well_formed(),
        ensures
            final(self).well_formed(),
            old(self)@.feed(Statement::Label(label@)) == Ok::<LoaderView, LoadError>(
                final(self)@,
            ),
    {
        let ghost pending = texts(self.pending_labels@);
        self.pending_labels.push(string_of(label));
        proof {
            assert(texts(self.pending_labels@) =~= pending.push(label@));
            assert(pending.push(label@).drop_last() =~= pending);
        }
    }

    /// Appends an instruction to the body of the current function.
    fn push_instruction(&mut self, inst: Inst)
        requires
            old(self).current_func is Some,
        ensures
            final(self).current_func is Some,
            final(self).current_func->0.body@ == old(self).current_func->0.body@.push(inst),
            final(self).current_func->0.name == old(self).current_func->0.name,
            final(self).current_func->0.args == old(self).current_func->0.args,
            final(self).current_func->0.returns == old(self).current_func->0.returns,
            final(self).current_func->0.default_locals == old(
                self,
            ).current_func->0.default_locals,
            *final(self) == (Loader { current_func: final(self).current_func, ..*old(self) }),
    {
        match self.current_func.take() {
            Some(mut function) => {
                function.body.push(inst);
                self.current_func = Some(function);
            },
            None => {},
        }
    }

    /// Reads the instruction of a line and appends it to the current
    /// function. The labels and functions that it names get placeholders.
    /// On an error the state is left as it was.
    fn parse_instruction(&mut self, line: &[char]) -> (r: Result<(), LoadError>)
        requires
            old(self).well_formed(),
        ensures
            agrees(
                r,
                final(self)@,
                match instruction(line@) {
                    Err(error) => Err(error),
                    Ok(op) => old(self)@.append(op),
                },
            ),
            r is Ok ==> final(self).well_formed(),
            r is Err ==> *final(self) == *old(self),
    {
        let operation = match read_instruction(line) {
            Ok(operation) => operation,
            Err(error) => {
                return Err(error);
            },
        };
        let length = match &self.current_func {
            Some(function) => function.body.len(),
            None => {
                return Err(LoadError::OutsideFunction);
            },
        };
        if length >= u32::MAX as usize {
            return Err(LoadError::LimitExceeded);
        }
        let ghost before = *self;
        let ghost body = self.current_func->0.body@;
        let ghost labels = texts(self.labels@);
        let ghost callees = texts(self.called_names@);
        let inst = match operation {
            Operation::Plain(inst) => inst,
            Operation::Jump(label) => Inst::jump(self.get_placeholder_for_label(label)),
            Operation::Beq(label) => Inst::beq(self.get_placeholder_for_label(label)),
            Operation::Call(name) => match self.get_placeholder_for_func(name) {
                Ok(placeholder) => Inst::call(placeholder),
                Err(error) => {
                    return Err(error);
                },
            },
        };
        let ghost more_labels = texts(self.labels@);
        let ghost more_callees = texts(self.called_names@);
        self.save_pending_labels();
        self.push_instruction(inst);
        proof {
            lemma_decode_stable(body, false, labels, callees, more_labels, more_callees);
            assert(decode_body(body.push(inst), false, more_labels, more_callees) =~= decode_body(
                body,
                false,
                labels,
                callees,
            ).push(operation@));
            assert forall|i: int| 0 <= i < self.functions@.len() implies unit_of(
                self.functions@[i],
                more_callees,
            ) == unit_of(before.functions@[i], callees) && placeholders_fit(
                (#[trigger] self.functions@[i]).body@,
                true,
                0,
                self.called_names@.len(),
            ) by {
                lemma_decode_stable(
                    before.functions@[i].body@,
                    true,
                    Seq::empty(),
                    callees,
                    Seq::empty(),
                    more_callees,
                );
            }
            assert(self@.finished =~= before@.finished);
            assert(self@.current->0.labels == before@.current->0.labels);
            assert(self@.current->0.body == before@.current->0.body.push(operation@));
        }
        Ok(())
    }
}

impl Loader {
    /// The offset that the label with this placeholder stands for.
    fn get_real_instruction_offset(&self, idx: u32) -> (r: Result<u32, LoadError>)
        requires
            idx < self.labels@.len(),
        ensures
            ({
                let known = bindings(self.label_offsets@);
                let label = texts(self.labels@)[idx as int];
                match r {
                    Ok(offset) => known.contains_key(label) && known[label] == offset,
                    Err(error) => if known.contains_key(label) {
                        known[label] > u32::MAX && error == LoadError::LimitExceeded
                    } else {
                        error == LoadError::UnresolvedLabel
                    },
                }
            }),
    {
        let label = &self.labels[idx as usize];
        let ghost entries = self.label_offsets@;
        let ghost known = bindings(entries);
        let mut i: usize = self.label_offsets.len();
        assert(entries.take(i as int) =~= entries);
        while i > 0
            invariant
                i <= entries.len(),
                entries == self.label_offsets@,
                known == bindings(entries),
                label@ == texts(self.labels@)[idx as int],
                known.contains_key(label@) == bindings(entries.take(i as int)).contains_key(
                    label@,
                ),
                known.contains_key(label@) ==> known[label@] == bindings(
                    entries.take(i as int),
                )[label@],
            decreases i,
        {
            i -= 1;
            assert(entries.take(i + 1).drop_last() =~= entries.take(i as int));
            assert(entries.take(i + 1).last() == entries[i as int]);
            if self.label_offsets[i].label == *label {
                let offset = self.label_offsets[i].offset;
                if offset > u32::MAX as usize {
                    return Err(LoadError::LimitExceeded);
                }
                return Ok(offset as u32);
            }
        }
        Err(LoadError::UnresolvedLabel)
    }

    /// The body of the current function with the offsets of the labels in
    /// place of their placeholders.
    fn fill_branching_placeholders(&self, body: &Vec<Inst>) -> (r: Result<Vec<Inst>, LoadError>)
        requires
            placeholders_fit(body@, false, self.labels@.len(), self.called_names@.len()),
        ensures
            ({
                let expected = resolve_branches(
                    decode_body(body@, false, texts(self.labels@), texts(self.called_names@)),
                    bindings(self.label_offsets@),
                );
                match r {
                    Ok(resolved) => {
                        &&& expected == Ok::<Seq<Op>, LoadError>(
                            decode_body(
                                resolved@,
                                true,
                                Seq::empty(),
                                texts(self.called_names@),
                            ),
                        )
                        &&& resolved@.len() == body@.len()
                        &&& placeholders_fit(resolved@, true, 0, self.called_names@.len())
                    },
                    Err(error) => expected == Err::<Seq<Op>, LoadError>(error),
                }
            }),
    {
        let ghost labels = texts(self.labels@);
        let ghost callees = texts(self.called_names@);
        let ghost known = bindings(self.label_offsets@);
        let ghost stated = decode_body(body@, false, labels, callees);
        let mut resolved: Vec<Inst> = Vec::new();
        let mut index: usize = 0;
        assert(stated.take(0) =~= Seq::<Op>::empty());
        assert(decode_body(resolved@, true, Seq::empty(), callees) =~= Seq::<Op>::empty());
        while index < body.len()
            invariant
                index <= body@.len(),
                resolved@.len() == index,
                labels == texts(self.labels@),
                callees == texts(self.called_names@),
                known == bindings(self.label_offsets@),
                stated == decode_body(body@, false, labels, callees),
                placeholders_fit(body@, false, self.labels@.len(), self.called_names@.len()),
                placeholders_fit(resolved@, true, 0, self.called_names@.len()),
                resolve_branches(stated.take(index as int), known) == Ok::<Seq<Op>, LoadError>(
                    decode_body(resolved@, true, Seq::empty(), callees),
                ),
            decreases body@.len() - index,
        {
            let inst = body[index];
            let ghost done = decode_body(resolved@, true, Seq::empty(), callees);
            proof {
                assert(stated.take(index + 1).drop_last() =~= stated.take(index as int));
                assert(stated.take(index + 1).last() == decode(inst, false, labels, callees));
            }
            let new_inst = match inst {
                Inst::jump(idx) => match self.get_real_instruction_offset(idx) {
                    Ok(offset) => Inst::jump(offset),
                    Err(error) => {
                        proof {
                            lemma_resolve_branches_fails(stated, known, index as int);
                        }
                        return Err(error);
                    },
                },
                Inst::beq(idx) => match self.get_real_instruction_offset(idx) {
                    Ok(offset) => Inst::beq(offset),
                    Err(error) => {
                        proof {
                            lemma_resolve_branches_fails(stated, known, index as int);
                        }
                        return Err(error);
                    },
                },
                other => other,
            };
            resolved.push(new_inst);
            proof {
                assert(resolve_branch(decode(inst, false, labels, callees), known) == Ok::<
                    Op,
                    LoadError,
                >(decode(new_inst, true, Seq::empty(), callees)));
                assert(decode_body(resolved@, true, Seq::empty(), callees) =~= done.push(
                    decode(new_inst, true, Seq::empty(), callees),
                ));
            }
            index += 1;
        }
        assert(stated.take(index as int) =~= stated);
        Ok(resolved)
    }

    /// Ends the current function, if there is one: binds the labels that
    /// are still pending, resolves the jumps, gives the function the locals
    /// that its header asks for, and adds it to the table.
    fn save_func(&mut self) -> (r: Result<(), LoadError>)
        requires
            old(self).well_formed(),
        ensures
            agrees(r, final(self)@, old(self)@.close()),
            r is Ok ==> final(self).well_formed() && final(self).current_func is None,
    {
        if self.current_func.is_some() {
            self.save_pending_labels();
        }
        let ghost before = *self;
        let ghost callees = texts(self.called_names@);
        match self.current_func.take() {
            None => Ok(()),
            Some(mut func) => {
                let body = match self.fill_branching_placeholders(&func.body) {
                    Ok(body) => body,
                    Err(error) => {
                        return Err(error);
                    },
                };
                func.body = body;
                let default_locals: usize = func.args as usize + if func.returns {
                    1
                } else {
                    0
                };
                if default_locals > func.default_locals.len() {
                    let ghost given = func.default_locals@;
                    func.default_locals.resize(default_locals, 0);
                    assert(func.default_locals@ =~= given + zeros(
                        (default_locals - given.len()) as nat,
                    ));
                }
                let ghost unit = unit_of(func, callees);
                let ghost finished = old(self)@.finished;
                self.functions.push(func);
                proof {
                    assert(old(self)@.current->0.seal() == Ok::<Unit, LoadError>(unit));
                    assert(self@.finished =~= finished.push(unit));
                }
                Ok(())
            },
        }
    }
}

impl Loader {
    /// Reads a directive; `line` is what follows the `.` of its line.
    fn process_meta(&mut self, line: &[char]) -> (r: Result<(), LoadError>)
        requires
            old(self).well_formed(),
        ensures
            agrees(r, final(self)@, fed(old(self)@, directive(line@))),
            r is Ok ==> final(self).well_formed(),
    {
        let mut parts = Fields::new(line);
        let ghost fields = split(line@, ' ');
        let word = match parts.next() {
            Some(word) => word,
            None => {
                return Err(LoadError::UnknownDirective);
            },
        };
        assert(field(parts.rest(), 0) == field(fields, 1));
        if same_text(word, "func") {
            let name = parts.next();
            assert(field(parts.rest(), 0) == field(fields, 2));
            let args = parse_operand(&mut parts, u16::MAX as u64);
            assert(field(parts.rest(), 0) == field(fields, 3));
            let flag = parse_operand(&mut parts, 1);
            let (name, args, flag) = match (name, args, flag) {
                (Some(name), Ok(args), Ok(flag)) => (name, args, flag),
                _ => {
                    return Err(LoadError::MalformedOperand);
                },
            };
            match self.save_func() {
                Ok(()) => {},
                Err(error) => {
                    return Err(error);
                },
            }
            let ghost closed = self@;
            self.current_func = Some(
                ManagedFuncDef {
                    name: string_of(name),
                    args: args as u16,
                    returns: flag == 1,
                    default_locals: Vec::new(),
                    body: Vec::new(),
                },
            );
            self.pending_labels.clear();
            self.labels.clear();
            self.label_offsets.clear();
            proof {
                assert(self@.finished =~= closed.finished);
                assert(self@.current->0.body =~= Seq::<Op>::empty());
                assert(self@.current->0.locals =~= Seq::<u32>::empty());
            }
            Ok(())
        } else if same_text(word, "locals") {
            let count = match parse_operand(&mut parts, usize::MAX as u64) {
                Ok(count) => count as usize,
                Err(error) => {
                    return Err(error);
                },
            };
            match self.current_func.take() {
                Some(mut func) => {
                    func.default_locals = vec![0; count];
                    assert(func.default_locals@ =~= zeros(count as nat));
                    self.current_func = Some(func);
                },
                None => {},
            }
            Ok(())
        } else if same_text(word, "local") {
            let idx = parse_operand(&mut parts, u16::MAX as u64);
            assert(field(parts.rest(), 0) == field(fields, 2));
            let value = parse_operand(&mut parts, u32::MAX as u64);
            let (idx, value) = match (idx, value) {
                (Ok(idx), Ok(value)) => (idx as usize, value as u32),
                _ => {
                    return Err(LoadError::MalformedOperand);
                },
            };
            match self.current_func.take() {
                Some(mut func) => {
                    if idx >= func.default_locals.len() {
                        return Err(LoadError::LocalIndexOutOfRange);
                    }
                    func.default_locals[idx] = value;
                    self.current_func = Some(func);
                },
                None => {},
            }
            Ok(())
        } else {
            Err(LoadError::UnknownDirective)
        }
    }

    /// Reads one line: a directive where it starts with `.`, a label
    /// where it ends with `:`, an instruction otherwise; nothing where
    /// only white space stands in it.
    fn read_line(&mut self, line: &[char]) -> (r: Result<(), LoadError>)
        requires
            old(self).well_formed(),
        ensures
            agrees(r, final(self)@, old(self)@.read(line@)),
            r is Ok ==> final(self).well_formed(),
    {
        let line = trim(line);
        let n = line.len();
        if n == 0 {
            return Ok(());
        }
        if line[0] == '.' {
            assert(line@.skip(1) =~= line@.subrange(1, n as int));
            self.process_meta(slice_subrange(line, 1, n))
        } else if line[n - 1] == ':' {
            assert(line@.drop_last() =~= line@.subrange(0, n - 1));
            self.parse_label(slice_subrange(line, 0, n - 1));
            Ok(())
        } else {
            self.parse_instruction(line)
        }
    }
}

impl Loader {
    /// The index of the function that the placeholder of a call stands
    /// for: the first function of the name that was called.
    fn get_real_func_index(&self, fake_idx: u16) -> (r: Result<u16, LoadError>)
        requires
            fake_idx < self.called_names@.len(),
        ensures
            ({
                let expected = resolve_call(
                    Op::Call(texts(self.called_names@)[fake_idx as int]),
                    unit_names(self@.finished),
                );
                match r {
                    Ok(index) => expected == Ok::<Inst, LoadError>(Inst::call(index)),
                    Err(error) => expected == Err::<Inst, LoadError>(error),
                }
            }),
    {
        let callee_name = &self.called_names[fake_idx as usize];
        let ghost names = unit_names(self@.finished);
        let mut i: usize = 0;
        assert(names.skip(0) =~= names);
        while i < self.functions.len()
            invariant
                i <= self.functions@.len(),
                names == unit_names(self@.finished),
                names.len() == self.functions@.len(),
                callee_name@ == texts(self.called_names@)[fake_idx as int],
                position(names, callee_name@) == match position(
                    names.skip(i as int),
                    callee_name@,
                ) {
                    Some(at) => Some(at + i as nat),
                    None => None,
                },
            decreases self.functions@.len() - i,
        {
            assert(names.skip(i as int)[0] == self.functions@[i as int].name@);
            if self.functions[i].name == *callee_name {
                if i > u16::MAX as usize {
                    return Err(LoadError::LimitExceeded);
                }
                return Ok(i as u16);
            }
            assert(names.skip(i as int).drop_first() =~= names.skip(i + 1));
            i += 1;
        }
        Err(LoadError::UnresolvedCall)
    }

    /// A body with the indices of the called functions in place of their
    /// placeholders.
    fn resolve_body(&self, body: &Vec<Inst>) -> (r: Result<Vec<Inst>, LoadError>)
        requires
            placeholders_fit(body@, true, 0, self.called_names@.len()),
        ensures
            ({
                let expected = resolve_calls(
                    decode_body(body@, true, Seq::empty(), texts(self.called_names@)),
                    unit_names(self@.finished),
                );
                match r {
                    Ok(resolved) => expected == Ok::<Seq<Inst>, LoadError>(resolved@),
                    Err(error) => expected == Err::<Seq<Inst>, LoadError>(error),
                }
            }),
    {
        let ghost callees = texts(self.called_names@);
        let ghost names = unit_names(self@.finished);
        let ghost stated = decode_body(body@, true, Seq::empty(), callees);
        let mut resolved: Vec<Inst> = Vec::new();
        let mut index: usize = 0;
        assert(stated.take(0) =~= Seq::<Op>::empty());
        while index < body.len()
            invariant
                index <= body@.len(),
                callees == texts(self.called_names@),
                names == unit_names(self@.finished),
                stated == decode_body(body@, true, Seq::empty(), callees),
                placeholders_fit(body@, true, 0, self.called_names@.len()),
                resolve_calls(stated.take(index as int), names) == Ok::<Seq<Inst>, LoadError>(
                    resolved@,
                ),
            decreases body@.len() - index,
        {
            let inst = body[index];
            proof {
                assert(stated.take(index + 1).drop_last() =~= stated.take(index as int));
                assert(stated.take(index + 1).last() == decode(inst, true, Seq::empty(), callees));
            }
            let new_inst = match inst {
                Inst::call(fake_idx) => match self.get_real_func_index(fake_idx) {
                    Ok(real_idx) => Inst::call(real_idx),
                    Err(error) => {
                        proof {
                            lemma_resolve_calls_fails(stated, names, index as int);
                        }
                        return Err(error);
                    },
                },
                other => other,
            };
            resolved.push(new_inst);
            index += 1;
        }
        assert(stated.take(index as int) =~= stated);
        Ok(resolved)
    }

    /// The table of the functions with the indices of the called functions
    /// in place of the placeholders.
    fn fill_call_placeholders(&self) -> (r: Result<Vec<FuncDef>, LoadError>)
        requires
            self.well_formed(),
        ensures
            ({
                let expected = link(self@.finished, self@.finished.len());
                match r {
                    Ok(table) => expected == Ok::<Seq<FuncView>, LoadError>(
                        Seq::new(table@.len(), |i: int| table@[i]@),
                    ),
                    Err(error) => expected == Err::<Seq<FuncView>, LoadError>(error),
                }
            }),
    {
        let ghost units = self@.finished;
        let mut table: Vec<FuncDef> = Vec::new();
        let mut caller_idx: usize = 0;
        assert(Seq::new(table@.len(), |i: int| table@[i]@) =~= Seq::<FuncView>::empty());
        while caller_idx < self.functions.len()
            invariant
                caller_idx <= self.functions@.len(),
                self.well_formed(),
                units == self@.finished,
                units.len() == self.functions@.len(),
                link(units, caller_idx as nat) == Ok::<Seq<FuncView>, LoadError>(
                    Seq::new(table@.len(), |i: int| table@[i]@),
                ),
            decreases self.functions@.len() - caller_idx,
        {
            let caller = &self.functions[caller_idx];
            let ghost done = Seq::new(table@.len(), |i: int| table@[i]@);
            let body = match self.resolve_body(&caller.body) {
                Ok(body) => body,
                Err(error) => {
                    proof {
                        lemma_link_stays_failed(units, (caller_idx + 1) as nat, units.len());
                    }
                    return Err(error);
                },
            };
            let function = FuncDef::Managed(
                ManagedFuncDef {
                    name: caller.name.clone(),
                    args: caller.args,
                    returns: caller.returns,
                    default_locals: caller.default_locals.clone(),
                    body,
                },
            );
            table.push(function);
            assert(Seq::new(table@.len(), |i: int| table@[i]@) =~= done.push(function@));
            caller_idx += 1;
        }
        Ok(table)
    }

    /// Assembles a source text into a program of the given name.
    ///
    /// The result is what `assemble` says of the text: the program that it
    /// stands for, or the first error in it. Whatever the loader held
    /// before is dropped, and it is fresh again afterwards.
    pub fn load(&mut self, name: &str, source: &str) -> (r: Result<Assembly, LoadError>)
        ensures
            final(self).is_fresh(),
            match r {
                Ok(program) => assemble(name@, source@) == Ok::<AssemblyView, LoadError>(
                    program@,
                ),
                Err(error) => assemble(name@, source@) == Err::<AssemblyView, LoadError>(error),
            },
            r matches Ok(program) ==> program@.well_formed(),
    {
        self.reset();
        proof {
            self.lemma_fresh();
            lemma_assembled_is_well_formed(name@, source@);
        }
        let chars = chars_of(source);
        let text = chars.as_slice();
        let n = text.len();
        let mut start: usize = 0;
        assert(text@.skip(0) =~= text@);
        loop
            invariant_except_break
                self@.read_all(text@.skip(start as int)) == LoaderView::fresh().read_all(text@),
            invariant
                start <= n == text@.len(),
                text@ == source@,
                self.well_formed(),
            ensures
                self@.finish() == LoaderView::fresh().read_all(text@),
            decreases n - start,
        {
            let end = find(text, start, '\n');
            let line = slice_subrange(text, start, end);
            assert(line@ =~= text@.skip(start as int).take(end - start));
            match self.read_line(line) {
                Ok(()) => {},
                Err(error) => {
                    self.reset();
                    return Err(error);
                },
            }
            if end < n {
                assert(text@.skip(start as int).skip(end - start + 1) =~= text@.skip(end + 1));
                start = end + 1;
            } else {
                break ;
            }
        }
        let table = match self.finish() {
            Ok(table) => table,
            Err(error) => {
                self.reset();
                return Err(error);
            },
        };
        self.reset();
        Ok(Assembly { entry: 0, name: String::from_str(name), functions: table })
    }

    /// Ends the text: ends the current function and resolves the calls.
    fn finish(&mut self) -> (r: Result<Vec<FuncDef>, LoadError>)
        requires
            old(self).well_formed(),
        ensures
            match r {
                Ok(table) => old(self)@.finish() == Ok::<Seq<FuncView>, LoadError>(
                    Seq::new(table@.len(), |i: int| table@[i]@),
                ),
                Err(error) => old(self)@.finish() == Err::<Seq<FuncView>, LoadError>(error),
            },
    {
        match self.save_func() {
            Ok(()) => {},
            Err(error) => {
                return Err(error);
            },
        }
        self.fill_call_placeholders()
    }
}

/// The characters of a string.
fn chars_of(source: &str) -> (chars: Vec<char>)
    ensures
        chars@ == source@,
{
    let mut chars: Vec<char> = Vec::new();
    for c in it: source.chars()
        invariant
            chars@ == it.seq().take(it.index() as int),
            it.seq() == source@,
    {
        chars.push(c);
    }
    chars
}

} // verus!
