//! Data model: command signatures, timing records, and the ordered history.
use vstd::prelude::*;

verus! {

/// Mathematical view of a command signature: the executable name and the
/// ordered argument list, both as character sequences.
pub ghost struct SigView {
    pub command: Seq<char>,
    pub args: Seq<Seq<char>>,
}

/// Mathematical view of one completed run.
pub ghost struct RecordView {
    pub command: Seq<char>,
    pub args: Seq<Seq<char>>,
    pub start_epoch_ms: u64,
    pub duration_ns: u64,
}

/// The sequence of string views of a sequence of strings.
pub open spec fn strs_view(v: Seq<String>) -> Seq<Seq<char>> {
    v.map_values(|s: String| s@)
}

/// Identity of a trackable command: executable name plus the ordered argument
/// list. Two signatures are equal iff the name and the full argument sequence
/// match exactly (order-sensitive, case-sensitive); nothing is normalized.
pub struct CommandSignature {
    pub command: String,
    pub args: Vec<String>,
}

impl View for CommandSignature {
    type V = SigView;

    open spec fn view(&self) -> SigView {
        SigView { command: self.command@, args: strs_view(self.args@) }
    }
}

/// One completed run: the signature it belongs to, the start time in
/// milliseconds since the Unix epoch, and the measured wall-clock duration in
/// nanoseconds. Immutable once created.
pub struct TimingRecord {
    pub command: String,
    pub args: Vec<String>,
    pub start_epoch_ms: u64,
    pub duration_ns: u64,
}

impl View for TimingRecord {
    type V = RecordView;

    open spec fn view(&self) -> RecordView {
        RecordView {
            command: self.command@,
            args: strs_view(self.args@),
            start_epoch_ms: self.start_epoch_ms,
            duration_ns: self.duration_ns,
        }
    }
}

/// The signature a record belongs to.
pub open spec fn sig_of(r: RecordView) -> SigView {
    SigView { command: r.command, args: r.args }
}

/// Whether a record belongs to the given signature: exact equality of the
/// name and of the whole argument sequence.
pub open spec fn rec_matches(r: RecordView, s: SigView) -> bool {
    r.command == s.command && r.args == s.args
}

/// The durable, insertion-ordered sequence of timing records (oldest first).
pub struct History {
    pub timings: Vec<TimingRecord>,
}

impl View for History {
    type V = Seq<RecordView>;

    open spec fn view(&self) -> Seq<RecordView> {
        self.timings@.map_values(|r: TimingRecord| r@)
    }
}

impl History {
    /// A history with no records yet.
    pub fn new() -> (h: History)
        ensures
            h@ == Seq::<RecordView>::empty(),
    {
        let h = History { timings: Vec::new() };
        proof {
            assert(h@ =~= Seq::<RecordView>::empty());
        }
        h
    }

    /// Number of records.
    pub fn len(&self) -> (n: usize)
        ensures
            n == self@.len(),
    {
        self.timings.len()
    }

    /// Appends one record at the end, preserving the order of all existing
    /// records.
    pub fn append(&mut self, r: TimingRecord)
        ensures
            final(self)@ == old(self)@.push(r@),
    {
        let ghost before = self.timings@;
        self.timings.push(r);
        proof {
            assert(self@ =~= old(self)@.push(self.timings@.last()@));
        }
    }
}

/// Whether two string vectors hold exactly the same sequences of characters.
pub fn strings_eq(a: &Vec<String>, b: &Vec<String>) -> (r: bool)
    ensures
        r == (strs_view(a@) == strs_view(b@)),
{
    if a.len() != b.len() {
        proof {
            assert(strs_view(a@).len() != strs_view(b@).len());
        }
        return false;
    }
    let mut i: usize = 0;
    while i < a.len()
        invariant
            a@.len() == b@.len(),
            i <= a@.len(),
            forall|j: int| 0 <= j < i ==> a@[j]@ == b@[j]@,
        decreases a@.len() - i,
    {
        if !(&a[i]).eq(&b[i]) {
            proof {
                assert(strs_view(a@)[i as int] != strs_view(b@)[i as int]);
            }
            return false;
        }
        i += 1;
    }
    proof {
        assert(strs_view(a@) =~= strs_view(b@));
    }
    true
}

/// Whether a record belongs to the given signature.
pub fn record_matches(r: &TimingRecord, s: &CommandSignature) -> (b: bool)
    ensures
        b == rec_matches(r@, s@),
{
    (&r.command).eq(&s.command) && strings_eq(&r.args, &s.args)
}

impl TimingRecord {
    /// The signature this record belongs to.
    pub fn signature(&self) -> (s: CommandSignature)
        ensures
            s@ == sig_of(self@),
    {
        CommandSignature { command: self.command.clone(), args: clone_strings(&self.args) }
    }
}

/// A field-for-field copy of a string vector.
pub fn clone_strings(v: &Vec<String>) -> (r: Vec<String>)
    ensures
        strs_view(r@) == strs_view(v@),
{
    let mut out: Vec<String> = Vec::new();
    let mut i: usize = 0;
    while i < v.len()
        invariant
            i <= v@.len(),
            out@.len() == i,
            forall|j: int| 0 <= j < i ==> out@[j]@ == v@[j]@,
        decreases v@.len() - i,
    {
        out.push(v[i].clone());
        i += 1;
    }
    proof {
        assert(strs_view(out@) =~= strs_view(v@));
    }
    out
}

} // verus!
