//! The decisions of the proof-generation pipeline: the order of its stages,
//! the checks between them, and the commitments it collects. The work of
//! each stage (interpolation, low-degree extension, Merkle commitment,
//! transcript) is done by the caller, which reports each outcome as an event.

use crate::constraint::{poly_value, poly_within, row_wf, Constraint};
use crate::field::BaseFelt;
use vstd::prelude::*;

verus! {

/// A Merkle root.
pub type Digest = [u8; 32];

/// The parameters of a proof: the number of queries and the blowup factor of
/// the low-degree-extension domain.
#[derive(Clone, Copy, Debug, PartialEq, Eq, Structural)]
pub struct ProofOptions {
    pub num_queries: u8,
    pub blowup_factor: u8,
}

impl ProofOptions {
    pub fn new(num_queries: u8, blowup_factor: u8) -> (r: ProofOptions)
        ensures
            r.num_queries == num_queries,
            r.blowup_factor == blowup_factor,
    {
        ProofOptions { num_queries, blowup_factor }
    }
}

/// The shape of an execution trace.
#[derive(Clone, Copy, Debug, PartialEq, Eq, Structural)]
pub struct TraceInfo {
    pub num_base_columns: usize,
    pub num_extension_columns: usize,
    pub trace_len: usize,
}

/// Why a proof could not be generated.
#[derive(Clone, Copy, Debug, PartialEq, Eq, Structural)]
pub enum ProvingError {
    /// The constraint-evaluation blowup factor exceeds that of the
    /// low-degree extension.
    BlowupFactorTooLarge { ce_blowup_factor: usize, lde_blowup_factor: usize },
    /// A transition constraint does not vanish at this step of the trace.
    UnsatisfiedConstraint { step: usize },
    /// The composition polynomial's degree differs from the declared one.
    CompositionDegreeMismatch { computed: usize, declared: usize },
    /// An event arrived at a stage that does not expect it.
    OutOfOrder,
}

/// A proof: its options, the trace's shape, and the commitments in the order
/// they were made.
#[derive(Debug)]
pub struct Proof {
    pub options: ProofOptions,
    pub trace_info: TraceInfo,
    pub commitments: Vec<Digest>,
}

/// The stages of a proving session, in their only order.
#[derive(Clone, Copy, Debug, PartialEq, Eq, Structural)]
pub enum Stage {
    /// The base trace is to be interpolated, extended and committed.
    CommitBase,
    /// Challenges are drawn; extension columns, if any, are committed.
    CommitExtension,
    /// Constraints are composed; the composition degree is checked.
    Compose,
    /// The composed evaluations are committed.
    CommitComposition,
    /// All roots are in.
    Done,
    /// A check failed; the session takes no more events.
    Failed,
}

/// Every transition constraint vanishes on every pair of consecutive rows.
pub open spec fn trace_satisfies(constraints: Seq<Constraint>, rows: Seq<Vec<BaseFelt>>) -> bool {
    forall|c: int, s: int|
        #![trigger constraints[c], rows[s]]
        0 <= c < constraints.len() && 0 <= s && s + 1 < rows.len() ==> poly_value(
            constraints[c]@,
            rows[s]@,
            rows[s + 1]@,
        ) == 0
}

/// The diagnostic check: evaluates every transition constraint on every
/// pair of consecutive rows of the trace (row-major, `width` columns) and
/// reports the first step where one does not vanish.
pub fn validate(constraints: &Vec<Constraint>, rows: &Vec<Vec<BaseFelt>>, width: usize) -> (r: Result<(), ProvingError>)
    requires
        forall|c: int|
            0 <= c < constraints.len() ==> (#[trigger] constraints[c]).wf() && poly_within(
                constraints[c]@,
                width as nat,
                width as nat,
            ),
        forall|s: int| 0 <= s < rows.len() ==> (#[trigger] rows[s]).len() == width && row_wf(rows[s]@),
    ensures
        r is Ok <==> trace_satisfies(constraints@, rows@),
        r matches Err(e) ==> match e {
            ProvingError::UnsatisfiedConstraint { step } => step + 1 < rows.len() && exists|c: int|
                0 <= c < constraints.len() && poly_value(
                    #[trigger] constraints[c]@,
                    rows[step as int]@,
                    rows[step + 1]@,
                ) != 0,
            _ => false,
        },
{
    let mut s: usize = 0;
    while rows.len() > 0 && s < rows.len() - 1
        invariant
            s <= rows.len(),
            forall|c: int|
                0 <= c < constraints.len() ==> (#[trigger] constraints[c]).wf() && poly_within(
                    constraints[c]@,
                    width as nat,
                    width as nat,
                ),
            forall|k: int| 0 <= k < rows.len() ==> (#[trigger] rows[k]).len() == width && row_wf(rows[k]@),
            forall|c: int, t: int|
                #![trigger constraints[c], rows[t]]
                0 <= c < constraints.len() && 0 <= t < s && t + 1 < rows.len() ==> poly_value(
                    constraints[c]@,
                    rows[t]@,
                    rows[t + 1]@,
                ) == 0,
        decreases rows.len() - s,
    {
        let mut c: usize = 0;
        while c < constraints.len()
            invariant
                s + 1 < rows.len(),
                c <= constraints.len(),
                forall|c: int|
                    0 <= c < constraints.len() ==> (#[trigger] constraints[c]).wf() && poly_within(
                        constraints[c]@,
                        width as nat,
                        width as nat,
                    ),
                forall|k: int| 0 <= k < rows.len() ==> (#[trigger] rows[k]).len() == width && row_wf(rows[k]@),
                forall|d: int, t: int|
                    #![trigger constraints[d], rows[t]]
                    0 <= d < constraints.len() && 0 <= t < s && t + 1 < rows.len() ==> poly_value(
                        constraints[d]@,
                        rows[t]@,
                        rows[t + 1]@,
                    ) == 0,
                forall|d: int|
                    0 <= d < c ==> poly_value(#[trigger] constraints[d]@, rows[s as int]@, rows[s + 1]@) == 0,
            decreases constraints.len() - c,
        {
            let v = constraints[c].evaluate(&rows[s], &rows[s + 1]);
            if !v.is_zero() {
                proof {
                    assert(poly_value(constraints[c as int]@, rows[s as int]@, rows[s + 1]@) != 0);
                    assert(!trace_satisfies(constraints@, rows@)) by {
                        assert(constraints@[c as int] == constraints[c as int]);
                        assert(rows@[s as int] == rows[s as int]);
                    }
                }
                return Err(ProvingError::UnsatisfiedConstraint { step: s });
            }
            c = c + 1;
        }
        proof {
            assert forall|d: int, t: int|
                #![trigger constraints[d], rows[t]]
                0 <= d < constraints.len() && 0 <= t < s + 1 && t + 1 < rows.len() implies poly_value(
                    constraints[d]@,
                    rows[t]@,
                    rows[t + 1]@,
                ) == 0 by {
                if t == s {
                    assert(poly_value(constraints[d]@, rows[s as int]@, rows[s + 1]@) == 0);
                }
            }
        }
        s = s + 1;
    }
    proof {
        assert forall|c: int, t: int|
            #![trigger constraints@[c], rows@[t]]
            0 <= c < constraints@.len() && 0 <= t && t + 1 < rows@.len() implies poly_value(
                constraints@[c]@,
                rows@[t]@,
                rows@[t + 1]@,
            ) == 0 by {
            assert(constraints@[c] == constraints[c]);
            assert(rows@[t] == rows[t]);
        }
    }
    Ok(())
}

} // verus!

verus! {

/// A proving session: the stage it has reached and the roots committed so
/// far. Each method takes the outcome of one stage's outside work and says
/// whether the session moves on.
#[derive(Debug)]
pub struct ProofSession {
    pub options: ProofOptions,
    pub trace_info: TraceInfo,
    pub stage: Stage,
    pub commitments: Vec<Digest>,
    pub has_extension: bool,
    /// The composition degree was found equal to the declared one.
    pub degree_checked: bool,
}

/// How many roots a session holds at each stage.
pub open spec fn roots_at(stage: Stage, has_extension: bool) -> nat {
    let ext: nat = if has_extension { 1 } else { 0 };
    match stage {
        Stage::CommitBase => 0,
        Stage::CommitExtension => 1,
        Stage::Compose => 1 + ext,
        Stage::CommitComposition => 1 + ext,
        Stage::Done => 2 + ext,
        Stage::Failed => 0,
    }
}

impl ProofSession {
    /// The roots match the stage reached.
    pub open spec fn wf(&self) -> bool {
        &&& self.stage != Stage::Failed ==> self.commitments.len() == roots_at(self.stage, self.has_extension)
        &&& (self.stage == Stage::CommitComposition || self.stage == Stage::Done) ==> self.degree_checked
    }

    /// Opens a session once the constraint-evaluation blowup factor is found
    /// to be within that of the low-degree extension.
    pub fn start(
        options: ProofOptions,
        trace_info: TraceInfo,
        ce_blowup_factor: usize,
        lde_blowup_factor: usize,
    ) -> (r: Result<ProofSession, ProvingError>)
        ensures
            r is Err <==> ce_blowup_factor > lde_blowup_factor,
            r matches Err(e) ==> e == (ProvingError::BlowupFactorTooLarge { ce_blowup_factor, lde_blowup_factor }),
            r matches Ok(s) ==> s.wf() && s.stage == Stage::CommitBase && s.options == options && s.trace_info
                == trace_info && s.commitments@.len() == 0,
    {
        if ce_blowup_factor > lde_blowup_factor {
            return Err(ProvingError::BlowupFactorTooLarge { ce_blowup_factor, lde_blowup_factor });
        }
        Ok(
            ProofSession {
                options,
                trace_info,
                stage: Stage::CommitBase,
                commitments: Vec::new(),
                has_extension: false,
                degree_checked: false,
            },
        )
    }

    /// The base trace's root is in; challenges come next.
    pub fn commit_base(&mut self, root: Digest) -> (r: Result<(), ProvingError>)
        requires
            old(self).wf(),
        ensures
            final(self).wf(),
            old(self).stage == Stage::CommitBase ==> r is Ok && final(self).stage == Stage::CommitExtension
                && final(self).commitments@ == old(self).commitments@.push(root) && final(self).options
                == old(self).options && final(self).trace_info == old(self).trace_info,
            old(self).stage != Stage::CommitBase ==> r == Err::<(), ProvingError>(ProvingError::OutOfOrder)
                && *final(self) == *old(self),
    {
        if self.stage != Stage::CommitBase {
            return Err(ProvingError::OutOfOrder);
        }
        self.commitments.push(root);
        self.stage = Stage::CommitExtension;
        Ok(())
    }

    /// The extension trace's root, or `None` where the trace has no
    /// extension columns; composition comes next.
    pub fn commit_extension(&mut self, root: Option<Digest>) -> (r: Result<(), ProvingError>)
        requires
            old(self).wf(),
        ensures
            final(self).wf(),
            old(self).stage == Stage::CommitExtension ==> r is Ok && final(self).stage == Stage::Compose
                && final(self).has_extension == root is Some && final(self).commitments@ == match root {
                Some(d) => old(self).commitments@.push(d),
                None => old(self).commitments@,
            } && final(self).options == old(self).options && final(self).trace_info == old(self).trace_info,
            old(self).stage != Stage::CommitExtension ==> r == Err::<(), ProvingError>(ProvingError::OutOfOrder)
                && *final(self) == *old(self),
    {
        if self.stage != Stage::CommitExtension {
            return Err(ProvingError::OutOfOrder);
        }
        match root {
            Some(d) => {
                self.commitments.push(d);
                self.has_extension = true;
            },
            None => {
                self.has_extension = false;
            },
        }
        self.stage = Stage::Compose;
        Ok(())
    }

    /// The composition polynomial's degree against the declared one: a
    /// mismatch fails the session before anything is committed.
    pub fn check_composition_degree(&mut self, computed: usize, declared: usize) -> (r: Result<(), ProvingError>)
        requires
            old(self).wf(),
        ensures
            final(self).wf(),
            final(self).commitments@ == old(self).commitments@,
            final(self).has_extension == old(self).has_extension,
            final(self).options == old(self).options,
            final(self).trace_info == old(self).trace_info,
            old(self).stage == Stage::Compose && computed == declared ==> r is Ok && final(self).stage
                == Stage::CommitComposition && final(self).degree_checked,
            old(self).stage == Stage::Compose && computed != declared ==> r == Err::<(), ProvingError>(
                ProvingError::CompositionDegreeMismatch { computed, declared },
            ) && final(self).stage == Stage::Failed,
            old(self).stage != Stage::Compose ==> r == Err::<(), ProvingError>(ProvingError::OutOfOrder)
                && final(self).stage == old(self).stage,
    {
        if self.stage != Stage::Compose {
            return Err(ProvingError::OutOfOrder);
        }
        if computed != declared {
            self.stage = Stage::Failed;
            return Err(ProvingError::CompositionDegreeMismatch { computed, declared });
        }
        self.stage = Stage::CommitComposition;
        self.degree_checked = true;
        Ok(())
    }

    /// The composition's root is in; the session is done.
    pub fn commit_composition(&mut self, root: Digest) -> (r: Result<(), ProvingError>)
        requires
            old(self).wf(),
        ensures
            final(self).wf(),
            old(self).stage == Stage::CommitComposition ==> r is Ok && final(self).stage == Stage::Done
                && final(self).commitments@ == old(self).commitments@.push(root) && final(self).has_extension
                == old(self).has_extension && final(self).options == old(self).options && final(self).trace_info
                == old(self).trace_info,
            old(self).stage != Stage::CommitComposition ==> r == Err::<(), ProvingError>(ProvingError::OutOfOrder)
                && *final(self) == *old(self),
            r is Ok ==> old(self).degree_checked,
    {
        if self.stage != Stage::CommitComposition {
            return Err(ProvingError::OutOfOrder);
        }
        self.commitments.push(root);
        self.stage = Stage::Done;
        Ok(())
    }

    /// The proof of a finished session: two roots, or three with an
    /// extension trace.
    pub fn finish(self) -> (r: Result<Proof, ProvingError>)
        requires
            self.wf(),
        ensures
            self.stage == Stage::Done ==> (r matches Ok(p) && p.options == self.options && p.trace_info
                == self.trace_info && p.commitments@ == self.commitments@ && p.commitments@.len() == if self.has_extension {
                3nat
            } else {
                2nat
            }),
            self.stage != Stage::Done ==> r == Err::<Proof, ProvingError>(ProvingError::OutOfOrder),
            r is Ok ==> self.degree_checked,
    {
        if self.stage != Stage::Done {
            return Err(ProvingError::OutOfOrder);
        }
        Ok(Proof { options: self.options, trace_info: self.trace_info, commitments: self.commitments })
    }
}

} // verus!

verus! {

/// How many columns the composed evaluations fold into: one per trace length
/// of the composition polynomial.
pub fn composed_column_count(composition_len: usize, trace_len: usize) -> (r: usize)
    requires
        trace_len > 0,
    ensures
        r == composition_len / trace_len,
{
    composition_len / trace_len
}

/// Folds a column of composed evaluations into rows of `width` values, in
/// order, for a row-wise commitment; the last row may be shorter.
pub fn fold_into_rows(values: &Vec<BaseFelt>, width: usize) -> (r: Vec<Vec<BaseFelt>>)
    requires
        width > 0,
    ensures
        r.len() == (values.len() + width - 1) / width as int,
        forall|i: int|
            #![trigger r[i]]
            0 <= i < r.len() ==> r[i]@ == values@.subrange(
                i * width,
                if (i + 1) * width <= values.len() {
                    (i + 1) * width
                } else {
                    values.len() as int
                },
            ),
{
    let mut rows: Vec<Vec<BaseFelt>> = Vec::new();
    let mut start: usize = 0;
    proof {
        vstd::arithmetic::div_mod::lemma_basic_div((width - 1) as int, width as int);
        vstd::arithmetic::mul::lemma_mul_basics(width as int);
    }
    while start < values.len()
        invariant
            width > 0,
            start <= values.len(),
            start < values.len() ==> start == rows.len() * width,
            rows.len() == (start + width - 1) / width as int,
            forall|i: int|
                #![trigger rows[i]]
                0 <= i < rows.len() ==> rows[i]@ == values@.subrange(
                    i * width,
                    if (i + 1) * width <= values.len() {
                        (i + 1) * width
                    } else {
                        values.len() as int
                    },
                ),
        decreases values.len() - start,
    {
        let end: usize = if values.len() - start >= width {
            start + width
        } else {
            values.len()
        };
        let mut row: Vec<BaseFelt> = Vec::new();
        let mut k: usize = start;
        proof {
            assert(row@ =~= values@.subrange(start as int, start as int));
        }
        while k < end
            invariant
                start <= k <= end,
                end <= values.len(),
                row@ == values@.subrange(start as int, k as int),
            decreases end - k,
        {
            row.push(values[k]);
            proof {
                assert(row@ =~= values@.subrange(start as int, k + 1));
            }
            k = k + 1;
        }
        proof {
            let n = rows.len() as int;
            lemma_row_step(n, width as int, values.len() as int, start as int, end as int);
        }
        rows.push(row);
        start = end;
    }
    rows
}

/// One more row: it starts at `n * width` and ends a width later or at the
/// end of the values, and the row count is the ceiling of `end / width`.
proof fn lemma_row_step(n: int, width: int, len: int, start: int, end: int)
    requires
        width > 0,
        n >= 0,
        start == n * width,
        start < len,
        end == if len - start >= width { start + width } else { len },
    ensures
        end == if (n + 1) * width <= len { (n + 1) * width } else { len },
        (end + width - 1) / width == n + 1,
        end < len ==> end == (n + 1) * width,
{
    assert((n + 1) * width == n * width + width) by (nonlinear_arith);
    vstd::arithmetic::div_mod::lemma_fundamental_div_mod_converse(
        end + width - 1,
        width,
        n + 1,
        end + width - 1 - (n + 1) * width,
    );
}

} // verus!
