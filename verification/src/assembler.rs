//! What assembling a source text means: the statements of the text are fed,
//! one by one, to a table of functions under construction, and the names
//! that the instructions hold are resolved when a function, and then the
//! text, has ended.

use vstd::prelude::*;
use super::assembly::{AssemblyView, FuncView, ManagedFuncView};
use super::instructions::Inst;
use super::syntax::{instruction, statement, LoadError, Op, Statement};
use super::text::{first_index, trimmed};

verus! {

/// A function under construction: its header, the initial values of its
/// locals, its body with names for the targets of jumps and calls, and the
/// offsets of the labels that were declared so far.
pub struct Draft {
    pub name: Seq<char>,
    pub args: u16,
    pub returns: bool,
    pub locals: Seq<u32>,
    pub body: Seq<Op>,
    pub labels: Map<Seq<char>, nat>,
}

/// A function whose text has ended: its jumps hold offsets, its calls
/// still hold names.
pub struct Unit {
    pub name: Seq<char>,
    pub args: u16,
    pub returns: bool,
    pub locals: Seq<u32>,
    pub body: Seq<Op>,
}

/// The state of the assembler between two lines.
pub struct LoaderView {
    /// The functions whose text has ended, in the order of the source.
    pub finished: Seq<Unit>,
    /// The function that the lines now belong to.
    pub current: Option<Draft>,
    /// The names of the functions that were called so far, each once, in
    /// the order of their first call.
    pub callees: Seq<Seq<char>>,
}

/// `count` zeros.
pub open spec fn zeros(count: nat) -> Seq<u32> {
    Seq::new(count, |i: int| 0u32)
}

/// The offsets of labels after each of `labels` was bound to `offset`.
pub open spec fn bindings_after(
    known: Map<Seq<char>, nat>,
    labels: Seq<Seq<char>>,
    offset: nat,
) -> Map<Seq<char>, nat>
    decreases labels.len(),
{
    if labels.len() == 0 {
        known
    } else {
        bindings_after(known, labels.drop_last(), offset).insert(labels.last(), offset)
    }
}

/// The number of local slots that the header of a function asks for.
pub open spec fn min_locals(args: u16, returns: bool) -> nat {
    if returns {
        args as nat + 1
    } else {
        args as nat
    }
}

/// The instruction with the offset of its label in place of the label's
/// name. A jump to a label that was not declared is an error.
pub open spec fn resolve_branch(op: Op, labels: Map<Seq<char>, nat>) -> Result<Op, LoadError> {
    match op {
        Op::Jump(label) => if !labels.contains_key(label) {
            Err(LoadError::UnresolvedLabel)
        } else if labels[label] > u32::MAX {
            Err(LoadError::LimitExceeded)
        } else {
            Ok(Op::Plain(Inst::jump(labels[label] as u32)))
        },
        Op::Beq(label) => if !labels.contains_key(label) {
            Err(LoadError::UnresolvedLabel)
        } else if labels[label] > u32::MAX {
            Err(LoadError::LimitExceeded)
        } else {
            Ok(Op::Plain(Inst::beq(labels[label] as u32)))
        },
        other => Ok(other),
    }
}

/// The body with every jump resolved, or the error of the first
/// instruction that cannot be.
pub open spec fn resolve_branches(body: Seq<Op>, labels: Map<Seq<char>, nat>) -> Result<
    Seq<Op>,
    LoadError,
>
    decreases body.len(),
{
    if body.len() == 0 {
        Ok(Seq::empty())
    } else {
        match resolve_branches(body.drop_last(), labels) {
            Err(error) => Err(error),
            Ok(done) => match resolve_branch(body.last(), labels) {
                Err(error) => Err(error),
                Ok(op) => Ok(done.push(op)),
            },
        }
    }
}

/// The index of the first of `names` that is `name`.
pub open spec fn position(names: Seq<Seq<char>>, name: Seq<char>) -> Option<nat>
    decreases names.len(),
{
    if names.len() == 0 {
        None
    } else if names[0] == name {
        Some(0)
    } else {
        match position(names.drop_first(), name) {
            Some(at) => Some(at + 1),
            None => None,
        }
    }
}

/// The instruction with the index of the called function in place of its
/// name: the first function of that name. A call of a name that no
/// function has is an error.
pub open spec fn resolve_call(op: Op, names: Seq<Seq<char>>) -> Result<Inst, LoadError> {
    match op {
        Op::Plain(inst) => Ok(inst),
        Op::Call(name) => match position(names, name) {
            None => Err(LoadError::UnresolvedCall),
            Some(index) => if index > u16::MAX {
                Err(LoadError::LimitExceeded)
            } else {
                Ok(Inst::call(index as u16))
            },
        },
        // A finished function holds no jump by name.
        Op::Jump(_) => Err(LoadError::UnresolvedLabel),
        Op::Beq(_) => Err(LoadError::UnresolvedLabel),
    }
}

/// The body with every call resolved, or the error of the first
/// instruction that cannot be.
pub open spec fn resolve_calls(body: Seq<Op>, names: Seq<Seq<char>>) -> Result<
    Seq<Inst>,
    LoadError,
>
    decreases body.len(),
{
    if body.len() == 0 {
        Ok(Seq::empty())
    } else {
        match resolve_calls(body.drop_last(), names) {
            Err(error) => Err(error),
            Ok(done) => match resolve_call(body.last(), names) {
                Err(error) => Err(error),
                Ok(inst) => Ok(done.push(inst)),
            },
        }
    }
}

/// The names of the functions, in their order.
pub open spec fn unit_names(units: Seq<Unit>) -> Seq<Seq<char>> {
    units.map_values(|unit: Unit| unit.name)
}

/// The first `count` functions with their calls resolved against the names
/// of all of them, or the error of the first function that cannot be.
pub open spec fn link(units: Seq<Unit>, count: nat) -> Result<Seq<FuncView>, LoadError>
    decreases count,
{
    if count == 0 || count > units.len() {
        Ok(Seq::empty())
    } else {
        match link(units, (count - 1) as nat) {
            Err(error) => Err(error),
            Ok(done) => {
                let unit = units[count - 1];
                match resolve_calls(unit.body, unit_names(units)) {
                    Err(error) => Err(error),
                    Ok(body) => Ok(
                        done.push(
                            FuncView::Managed(
                                ManagedFuncView {
                                    name: unit.name,
                                    args: unit.args,
                                    returns: unit.returns,
                                    default_locals: unit.locals,
                                    body,
                                },
                            ),
                        ),
                    ),
                }
            },
        }
    }
}

impl Draft {
    /// The function that a `.func` line starts.
    pub open spec fn start(name: Seq<char>, args: u16, returning: bool) -> Draft {
        Draft {
            name,
            args,
            returns: returning,
            locals: Seq::empty(),
            body: Seq::empty(),
            labels: Map::empty(),
        }
    }

    /// The function at the end of its text: its jumps are resolved, and its
    /// locals are filled up with zeros to the number that its header asks
    /// for.
    pub open spec fn seal(self) -> Result<Unit, LoadError> {
        match resolve_branches(self.body, self.labels) {
            Err(error) => Err(error),
            Ok(body) => {
                let wanted = min_locals(self.args, self.returns);
                Ok(
                    Unit {
                        name: self.name,
                        args: self.args,
                        returns: self.returns,
                        locals: if self.locals.len() < wanted {
                            self.locals + zeros((wanted - self.locals.len()) as nat)
                        } else {
                            self.locals
                        },
                        body,
                    },
                )
            },
        }
    }
}

impl LoaderView {
    /// The state before the first line.
    pub open spec fn fresh() -> LoaderView {
        LoaderView { finished: Seq::empty(), current: None, callees: Seq::empty() }
    }

    /// The state after the current function, if there is one, has ended.
    pub open spec fn close(self) -> Result<LoaderView, LoadError> {
        match self.current {
            None => Ok(self),
            Some(draft) => match draft.seal() {
                Err(error) => Err(error),
                Ok(unit) => Ok(
                    LoaderView { finished: self.finished.push(unit), current: None, ..self },
                ),
            },
        }
    }

    /// The state after an instruction was appended to the current function.
    pub open spec fn append(self, op: Op) -> Result<LoaderView, LoadError> {
        match self.current {
            None => Err(LoadError::OutsideFunction),
            Some(draft) => if draft.body.len() >= u32::MAX {
                Err(LoadError::LimitExceeded)
            } else {
                let current = Some(Draft { body: draft.body.push(op), ..draft });
                match op {
                    Op::Call(name) => if self.callees.contains(name) {
                        Ok(LoaderView { current, ..self })
                    } else if self.callees.len() > u16::MAX {
                        Err(LoadError::LimitExceeded)
                    } else {
                        Ok(LoaderView { current, callees: self.callees.push(name), ..self })
                    },
                    _ => Ok(LoaderView { current, ..self }),
                }
            },
        }
    }

    /// The state after a statement.
    ///
    /// `.func` ends the current function and starts the next one. `.locals`
    /// gives the current function that many locals, all zero; `.local`
    /// sets the initial value of one of the locals that it has; a label
    /// stands for the offset of the instruction that follows it; an
    /// instruction is appended to the body. `.locals`, `.local` and a
    /// label before the first `.func` change nothing.
    pub open spec fn feed(self, statement: Statement) -> Result<LoaderView, LoadError> {
        match statement {
            Statement::Func { name, args, returns: returning } => match self.close() {
                Err(error) => Err(error),
                Ok(closed) => Ok(
                    LoaderView { current: Some(Draft::start(name, args, returning)), ..closed },
                ),
            },
            Statement::Locals(count) => match self.current {
                None => Ok(self),
                Some(draft) => Ok(
                    LoaderView { current: Some(Draft { locals: zeros(count), ..draft }), ..self },
                ),
            },
            Statement::Local(index, value) => match self.current {
                None => Ok(self),
                Some(draft) => if index < draft.locals.len() {
                    Ok(
                        LoaderView {
                            current: Some(
                                Draft { locals: draft.locals.update(index as int, value), ..draft },
                            ),
                            ..self
                        },
                    )
                } else {
                    Err(LoadError::LocalIndexOutOfRange)
                },
            },
            Statement::Label(label) => match self.current {
                None => Ok(self),
                Some(draft) => Ok(
                    LoaderView {
                        current: Some(
                            Draft { labels: draft.labels.insert(label, draft.body.len()), ..draft },
                        ),
                        ..self
                    },
                ),
            },
            Statement::Code(op) => self.append(op),
        }
    }

    /// The state after a line: the line is trimmed, and where something is
    /// left of it, the statement that it holds is fed.
    pub open spec fn read(self, line: Seq<char>) -> Result<LoaderView, LoadError> {
        let text = trimmed(line);
        if text.len() == 0 {
            Ok(self)
        } else {
            match statement(text) {
                Err(error) => Err(error),
                Ok(stated) => self.feed(stated),
            }
        }
    }

    /// The functions at the end of the text: the current function ends,
    /// and the calls of all functions are resolved.
    pub open spec fn finish(self) -> Result<Seq<FuncView>, LoadError> {
        match self.close() {
            Err(error) => Err(error),
            Ok(closed) => link(closed.finished, closed.finished.len()),
        }
    }

    /// The functions that the rest of a text gives from this state on. The
    /// lines of the text end with a line feed; the first error ends the
    /// reading.
    pub open spec fn read_all(self, text: Seq<char>) -> Result<Seq<FuncView>, LoadError>
        decreases text.len(),
    {
        let end = first_index(text, '\n');
        match self.read(text.take(end)) {
            Err(error) => Err(error),
            Ok(next) => if 0 <= end < text.len() {
                next.read_all(text.skip(end + 1))
            } else {
                next.finish()
            },
        }
    }
}

/// The program that a source text stands for, or the reason for which it
/// stands for none. The entry point of the program is its first function.
pub open spec fn assemble(name: Seq<char>, source: Seq<char>) -> Result<AssemblyView, LoadError> {
    match LoaderView::fresh().read_all(source) {
        Err(error) => Err(error),
        Ok(functions) => Ok(AssemblyView { entry: 0, name, functions }),
    }
}

/// Where an instruction cannot be resolved, the body cannot be.
pub proof fn lemma_resolve_branches_fails(body: Seq<Op>, labels: Map<Seq<char>, nat>, at: int)
    requires
        0 <= at < body.len(),
        resolve_branches(body.take(at), labels) is Ok,
        resolve_branch(body[at], labels) is Err,
    ensures
        resolve_branches(body, labels) == Err::<Seq<Op>, LoadError>(
            resolve_branch(body[at], labels)->Err_0,
        ),
    decreases body.len() - at,
{
    assert(body.take(at + 1).drop_last() =~= body.take(at));
    assert(body.take(at + 1).last() == body[at]);
    lemma_resolve_branches_stays_failed(body, labels, at + 1);
}

/// A body cannot be resolved where a start of it cannot be, and for the
/// same reason.
pub proof fn lemma_resolve_branches_stays_failed(body: Seq<Op>, labels: Map<Seq<char>, nat>, k: int)
    requires
        0 <= k <= body.len(),
        resolve_branches(body.take(k), labels) is Err,
    ensures
        resolve_branches(body, labels) == resolve_branches(body.take(k), labels),
    decreases body.len() - k,
{
    if k == body.len() {
        assert(body.take(k) =~= body);
    } else {
        assert(body.take(k + 1).drop_last() =~= body.take(k));
        lemma_resolve_branches_stays_failed(body, labels, k + 1);
    }
}

/// Where an instruction cannot be resolved, the body cannot be.
pub proof fn lemma_resolve_calls_fails(body: Seq<Op>, names: Seq<Seq<char>>, at: int)
    requires
        0 <= at < body.len(),
        resolve_calls(body.take(at), names) is Ok,
        resolve_call(body[at], names) is Err,
    ensures
        resolve_calls(body, names) == Err::<Seq<Inst>, LoadError>(
            resolve_call(body[at], names)->Err_0,
        ),
{
    assert(body.take(at + 1).drop_last() =~= body.take(at));
    assert(body.take(at + 1).last() == body[at]);
    lemma_resolve_calls_stays_failed(body, names, at + 1);
}

/// A body cannot be resolved where a start of it cannot be, and for the
/// same reason.
pub proof fn lemma_resolve_calls_stays_failed(body: Seq<Op>, names: Seq<Seq<char>>, k: int)
    requires
        0 <= k <= body.len(),
        resolve_calls(body.take(k), names) is Err,
    ensures
        resolve_calls(body, names) == resolve_calls(body.take(k), names),
    decreases body.len() - k,
{
    if k == body.len() {
        assert(body.take(k) =~= body);
    } else {
        assert(body.take(k + 1).drop_last() =~= body.take(k));
        lemma_resolve_calls_stays_failed(body, names, k + 1);
    }
}

/// A table cannot be linked where a start of it cannot be, and for the
/// same reason.
pub proof fn lemma_link_stays_failed(units: Seq<Unit>, k: nat, count: nat)
    requires
        k <= count <= units.len(),
        link(units, k) is Err,
    ensures
        link(units, count) == link(units, k),
    decreases count - k,
{
    if k < count {
        lemma_link_stays_failed(units, k, (count - 1) as nat);
    }
}

/// Whether an instruction can stand in a function whose text has ended and
/// whose body has `length` instructions: it holds no label by name, no
/// index of a function, and no offset past the end of the body.
pub open spec fn settled(op: Op, length: nat) -> bool {
    match op {
        Op::Plain(Inst::jump(target)) => target <= length,
        Op::Plain(Inst::beq(target)) => target <= length,
        Op::Plain(Inst::call(_)) => false,
        Op::Plain(_) => true,
        Op::Call(_) => true,
        Op::Jump(_) => false,
        Op::Beq(_) => false,
    }
}

/// Whether an instruction is one that a line can state: it holds no offset
/// and no index, only names.
pub open spec fn stated(op: Op) -> bool {
    match op {
        Op::Plain(inst) => !(inst is jump || inst is beq || inst is call),
        _ => true,
    }
}

impl Unit {
    /// The function has the locals that its header asks for, and a body
    /// that a program counter can walk, with jumps that stay within it.
    pub open spec fn sound(self) -> bool {
        &&& self.locals.len() >= min_locals(self.args, self.returns)
        &&& self.body.len() <= u32::MAX
        &&& forall|k: int| 0 <= k < self.body.len() ==> settled(#[trigger] self.body[k], self.body.len())
    }
}

impl Draft {
    /// The body holds what lines can state, and the labels stand for
    /// offsets within the body or just past its end.
    pub open spec fn sound(self) -> bool {
        &&& self.body.len() <= u32::MAX
        &&& forall|k: int| 0 <= k < self.body.len() ==> stated(#[trigger] self.body[k])
        &&& forall|label: Seq<char>| #[trigger]
            self.labels.contains_key(label) ==> self.labels[label] <= self.body.len()
    }
}

impl LoaderView {
    pub open spec fn sound(self) -> bool {
        &&& forall|i: int| 0 <= i < self.finished.len() ==> (#[trigger] self.finished[i]).sound()
        &&& match self.current {
            Some(draft) => draft.sound(),
            None => true,
        }
    }
}

/// A line states an instruction that holds names only.
pub proof fn lemma_instruction_is_stated(line: Seq<char>)
    ensures
        instruction(line) matches Ok(op) ==> stated(op),
{
}

/// The resolved body of a sound draft is as long as the draft's, and holds
/// offsets no greater than the labels'.
proof fn lemma_resolved_branches(body: Seq<Op>, labels: Map<Seq<char>, nat>, bound: nat)
    requires
        forall|k: int| 0 <= k < body.len() ==> stated(#[trigger] body[k]),
        forall|label: Seq<char>| #[trigger] labels.contains_key(label) ==> labels[label] <= bound,
    ensures
        resolve_branches(body, labels) matches Ok(resolved) ==> {
            &&& resolved.len() == body.len()
            &&& forall|k: int| 0 <= k < resolved.len() ==> settled(#[trigger] resolved[k], bound)
        },
    decreases body.len(),
{
    if body.len() > 0 {
        lemma_resolved_branches(body.drop_last(), labels, bound);
        assert(stated(body[body.len() - 1]));
    }
}

/// The position of a name is an index into the names.
pub proof fn lemma_position(names: Seq<Seq<char>>, name: Seq<char>)
    ensures
        match position(names, name) {
            Some(at) => at < names.len() && names[at as int] == name,
            None => !names.contains(name),
        },
    decreases names.len(),
{
    if names.len() > 0 && names[0] != name {
        lemma_position(names.drop_first(), name);
        match position(names.drop_first(), name) {
            Some(at) => {},
            None => {
                assert forall|i: int| 0 <= i < names.len() implies names[i] != name by {
                    if i > 0 {
                        assert(names.drop_first()[i - 1] == names[i]);
                    }
                }
            },
        }
    }
}

/// The linked body of a sound function is as long as the function's, holds
/// its offsets, and calls functions of the table only.
proof fn lemma_resolved_calls(body: Seq<Op>, names: Seq<Seq<char>>, bound: nat)
    requires
        forall|k: int| 0 <= k < body.len() ==> settled(#[trigger] body[k], bound),
    ensures
        resolve_calls(body, names) matches Ok(resolved) ==> {
            &&& resolved.len() == body.len()
            &&& forall|k: int|
                0 <= k < resolved.len() ==> match #[trigger] resolved[k] {
                    Inst::jump(target) => target <= bound,
                    Inst::beq(target) => target <= bound,
                    Inst::call(index) => (index as nat) < names.len(),
                    _ => true,
                }
        },
    decreases body.len(),
{
    if body.len() > 0 {
        lemma_resolved_calls(body.drop_last(), names, bound);
        assert(settled(body[body.len() - 1], bound));
        match body.last() {
            Op::Call(name) => {
                lemma_position(names, name);
            },
            _ => {},
        }
    }
}

/// The table that sound functions are linked into is well formed.
proof fn lemma_linked(units: Seq<Unit>, count: nat)
    requires
        count <= units.len(),
        forall|i: int| 0 <= i < units.len() ==> (#[trigger] units[i]).sound(),
    ensures
        link(units, count) matches Ok(functions) ==> {
            &&& functions.len() == count
            &&& forall|i: int|
                0 <= i < count ==> (#[trigger] functions[i]).well_formed(units.len())
        },
    decreases count,
{
    if count > 0 {
        lemma_linked(units, (count - 1) as nat);
        let unit = units[count - 1];
        assert(unit.sound());
        lemma_resolved_calls(unit.body, unit_names(units), unit.body.len());
    }
}

/// Locals sizing: a function whose text has ended has at least the locals
/// that its arguments and its result need. The locals that it was given
/// are kept, and those that are added hold zero.
pub proof fn lemma_sealed_locals(draft: Draft)
    ensures
        draft.seal() matches Ok(unit) ==> {
            &&& unit.locals.len() >= min_locals(unit.args, unit.returns)
            &&& unit.locals.len() >= draft.locals.len()
            &&& forall|i: int| 0 <= i < draft.locals.len() ==> unit.locals[i] == draft.locals[i]
            &&& forall|i: int| draft.locals.len() <= i < unit.locals.len() ==> unit.locals[i] == 0
        },
{
}

/// A statement leaves a sound state sound.
proof fn lemma_feed_keeps_sound(state: LoaderView, statement: Statement)
    requires
        state.sound(),
        statement matches Statement::Code(op) ==> stated(op),
    ensures
        state.feed(statement) matches Ok(next) ==> next.sound(),
{
    lemma_close_keeps_sound(state);
    match state.feed(statement) {
        Ok(next) => {
            match statement {
                Statement::Code(op) => {
                    let draft = state.current->0;
                    let longer = next.current->0;
                    assert forall|k: int| 0 <= k < longer.body.len() implies stated(
                        #[trigger] longer.body[k],
                    ) by {
                        if k < draft.body.len() {
                            assert(stated(draft.body[k]));
                        }
                    }
                },
                _ => {},
            }
        },
        Err(_) => {},
    }
}

/// The end of the current function leaves a sound state sound.
proof fn lemma_close_keeps_sound(state: LoaderView)
    requires
        state.sound(),
    ensures
        state.close() matches Ok(next) ==> next.sound() && next.current is None,
{
    match state.current {
        Some(draft) => {
            lemma_resolved_branches(draft.body, draft.labels, draft.body.len());
            match draft.seal() {
                Ok(unit) => {
                    let next = state.close()->Ok_0;
                    assert forall|i: int| 0 <= i < next.finished.len() implies (
                    #[trigger] next.finished[i]).sound() by {
                        if i < state.finished.len() {
                            assert(state.finished[i].sound());
                        }
                    }
                },
                Err(_) => {},
            }
        },
        None => {},
    }
}

/// What is read from a sound state on is a well-formed table of
/// functions.
proof fn lemma_read_all_well_formed(state: LoaderView, text: Seq<char>)
    requires
        state.sound(),
    ensures
        state.read_all(text) matches Ok(functions) ==> forall|i: int|
            0 <= i < functions.len() ==> (#[trigger] functions[i]).well_formed(functions.len()),
    decreases text.len(),
{
    let end = first_index(text, '\n');
    let line = trimmed(text.take(end));
    if line.len() > 0 {
        match statement(line) {
            Ok(stated) => {
                lemma_instruction_is_stated(line);
                lemma_feed_keeps_sound(state, stated);
            },
            Err(_) => {},
        }
    }
    match state.read(text.take(end)) {
        Ok(next) => {
            if 0 <= end < text.len() {
                lemma_read_all_well_formed(next, text.skip(end + 1));
            } else {
                lemma_close_keeps_sound(next);
                match next.close() {
                    Ok(closed) => {
                        lemma_linked(closed.finished, closed.finished.len());
                    },
                    Err(_) => {},
                }
            }
        },
        Err(_) => {},
    }
}

/// Every program that a source text stands for is well formed: each of
/// its functions has at least the locals that its arguments and its result
/// need, its jumps go to offsets within its body or just past its end, and
/// its calls go to functions of the program.
pub proof fn lemma_assembled_is_well_formed(name: Seq<char>, source: Seq<char>)
    ensures
        assemble(name, source) matches Ok(program) ==> program.well_formed(),
{
    lemma_read_all_well_formed(LoaderView::fresh(), source);
}

/// Assembling is a function of the source: two programs that the same
/// source stands for have the same functions, with the same offsets in
/// their jumps and the same indices in their calls, and a source that is
/// refused is refused for one reason.
pub proof fn lemma_assembling_is_repeatable(
    name: Seq<char>,
    other_name: Seq<char>,
    source: Seq<char>,
)
    ensures
        match (assemble(name, source), assemble(other_name, source)) {
            (Ok(first), Ok(second)) => first.functions == second.functions && first.entry
                == second.entry,
            (Err(first), Err(second)) => first == second,
            _ => false,
        },
{
}

} // verus!
