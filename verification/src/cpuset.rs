//! A set of CPU numbers below `CPU_SETSIZE`, laid out as the kernel's
//! `cpu_set_t` (64-bit words, CPU `c` at bit `c % 64` of word `c / 64`).
use vstd::prelude::*;

use crate::common::{CPU_SETSIZE, CPU_WORDS};
use crate::cpulist::{
    collect_runs, cpu_list, fields_cpus, field_cpus, lemma_cpu_list_roundtrip, parse_cpu_list, render,
    render_runs, runs, split_fields,
};
use crate::text::trim;

verus! {

/// Whether bit `j` of `w` is set.
pub open spec fn word_has(w: u64, j: u64) -> bool {
    ((w >> j) & 1u64) == 1u64
}

/// Whether CPU `c` is set in the words `bits`.
pub open spec fn has_cpu(bits: Seq<u64>, c: int) -> bool {
    0 <= c < CPU_SETSIZE && word_has(bits[c / 64], (c % 64) as u64)
}

/// The CPUs below `n` that `bits` holds, ascending.
pub open spec fn cpus_below(bits: Seq<u64>, n: nat) -> Seq<usize>
    decreases n,
{
    if n == 0 {
        Seq::empty()
    } else {
        cpus_below(bits, (n - 1) as nat) + (if has_cpu(bits, n - 1) {
            seq![(n - 1) as usize]
        } else {
            Seq::empty()
        })
    }
}

/// A CPU mask.
#[derive(Clone, Copy, Debug)]
pub struct CpuSet {
    pub bits: [u64; CPU_WORDS],
}

impl View for CpuSet {
    type V = Set<usize>;

    open spec fn view(&self) -> Set<usize> {
        Set::new(|c: usize| has_cpu(self.bits@, c as int))
    }
}

impl CpuSet {
    /// The CPUs of the mask, ascending.
    pub open spec fn members(&self) -> Seq<usize> {
        cpus_below(self.bits@, CPU_SETSIZE as nat)
    }
}

/// The CPU mask that a CPU list names (`0-3,6`), keeping the CPUs below
/// `CPU_SETSIZE`.
pub open spec fn list_mask(s: Seq<char>) -> Set<usize> {
    Set::new(|c: usize| c < CPU_SETSIZE && cpu_list(s).contains(c))
}

/// The placement of the machine: the CPUs present, and whether the cpuset
/// cgroup hierarchy is mounted.
#[derive(Clone, Copy, Debug)]
pub struct CpuTopology {
    pub present_cpus: CpuSet,
    pub cpuset_enabled: bool,
}

proof fn lemma_zero_word(j: u64)
    requires
        j < 64,
    ensures
        !word_has(0, j),
{
    assert(((0u64 >> j) & 1u64) == 0u64) by (bit_vector)
        requires
            j < 64,
    ;
}

proof fn lemma_or_word(a: u64, b: u64, j: u64)
    requires
        j < 64,
    ensures
        word_has(a | b, j) == (word_has(a, j) || word_has(b, j)),
{
    assert((((a | b) >> j) & 1u64 == 1u64) == (((a >> j) & 1u64 == 1u64) || ((b >> j) & 1u64
        == 1u64))) by (bit_vector)
        requires
            j < 64,
    ;
}

proof fn lemma_set_word(w: u64, j: u64, i: u64)
    requires
        j < 64,
        i < 64,
    ensures
        word_has(w | (1u64 << j), i) == (i == j || word_has(w, i)),
{
    assert((((w | (1u64 << j)) >> i) & 1u64 == 1u64) == (i == j || ((w >> i) & 1u64 == 1u64)))
        by (bit_vector)
        requires
            j < 64,
            i < 64,
    ;
}

proof fn lemma_cpus_below_props(bits: Seq<u64>, n: nat)
    ensures
        cpus_below(bits, n).no_duplicates(),
        forall|k: int|
            0 <= k < cpus_below(bits, n).len() ==> #[trigger] cpus_below(bits, n)[k] < n
                && has_cpu(bits, cpus_below(bits, n)[k] as int),
        forall|c: usize| c < n && has_cpu(bits, c as int) ==> cpus_below(bits, n).contains(c),
        forall|i: int, j: int|
            0 <= i < j < cpus_below(bits, n).len() ==> cpus_below(bits, n)[i] < cpus_below(
                bits,
                n,
            )[j],
    decreases n,
{
    if n > 0 {
        lemma_cpus_below_props(bits, (n - 1) as nat);
        let p = cpus_below(bits, (n - 1) as nat);
        let s = cpus_below(bits, n);
        if has_cpu(bits, n - 1) {
            assert(s == p.push((n - 1) as usize));
            assert forall|c: usize| c < n && has_cpu(bits, c as int) implies s.contains(c) by {
                if c == n - 1 {
                    assert(s[p.len() as int] == c);
                } else {
                    let k = choose|k: int| 0 <= k < p.len() && p[k] == c;
                    assert(s[k] == c);
                }
            }
        } else {
            assert(s =~= p);
        }
    }
}

/// The members of a mask are its view, without repeats, ascending.
proof fn lemma_members(s: CpuSet)
    ensures
        s.members().to_set() == s@,
        s.members().no_duplicates(),
        s.members().len() == s@.len(),
        forall|i: int, j: int|
            0 <= i < j < s.members().len() ==> s.members()[i] < s.members()[j],
{
    let m = s.members();
    lemma_cpus_below_props(s.bits@, CPU_SETSIZE as nat);
    assert(m.to_set() =~= s@);
    m.unique_seq_to_set();
}

impl CpuSet {
    /// The empty mask.
    pub fn new() -> (r: CpuSet)
        ensures
            r@ == Set::<usize>::empty(),
    {
        let r = CpuSet { bits: [0u64; 16] };
        proof {
            assert forall|c: usize| !has_cpu(r.bits@, c as int) by {
                if c < CPU_SETSIZE {
                    lemma_zero_word((c % 64) as u64);
                }
            }
            assert(r@ =~= Set::<usize>::empty());
        }
        r
    }

    /// Whether CPU `cpu` is in the mask.
    pub fn has(&self, cpu: usize) -> (r: bool)
        ensures
            r == self@.contains(cpu),
    {
        if cpu >= CPU_SETSIZE {
            return false;
        }
        ((self.bits[cpu / 64] >> ((cpu % 64) as u64)) & 1u64) == 1u64
    }

    /// Adds CPU `cpu` to the mask; a CPU the mask cannot hold (at or above
    /// `CPU_SETSIZE`) is ignored.
    pub fn set(&mut self, cpu: usize)
        ensures
            final(self)@ == (if cpu < CPU_SETSIZE {
                old(self)@.insert(cpu)
            } else {
                old(self)@
            }),
    {
        if cpu >= CPU_SETSIZE {
            assert(self@ =~= old(self)@);
            return;
        }
        let k = cpu / 64;
        let j = (cpu % 64) as u64;
        let w = self.bits[k];
        self.bits[k] = w | (1u64 << j);
        proof {
            assert forall|c: usize| #[trigger]
                has_cpu(self.bits@, c as int) == (c == cpu || has_cpu(old(self).bits@, c as int)) by {
                if c < CPU_SETSIZE {
                    if c / 64 == k {
                        lemma_set_word(w, j, (c % 64) as u64);
                    }
                }
            }
            assert(self@ =~= old(self)@.insert(cpu));
        }
    }

    /// Adds every CPU of `other` to the mask.
    pub fn or(&mut self, other: &CpuSet)
        ensures
            final(self)@ == old(self)@.union(other@),
    {
        let mut k: usize = 0;
        while k < CPU_WORDS
            invariant
                k <= CPU_WORDS,
                forall|i: int| 0 <= i < k ==> self.bits@[i] == old(self).bits@[i] | other.bits@[i],
                forall|i: int| k <= i < CPU_WORDS ==> self.bits@[i] == old(self).bits@[i],
            decreases CPU_WORDS - k,
        {
            let w = self.bits[k] | other.bits[k];
            self.bits[k] = w;
            k = k + 1;
        }
        proof {
            assert forall|c: usize| #[trigger]
                has_cpu(self.bits@, c as int) == (has_cpu(old(self).bits@, c as int) || has_cpu(
                    other.bits@,
                    c as int,
                )) by {
                if c < CPU_SETSIZE {
                    lemma_or_word(
                        old(self).bits@[(c / 64) as int],
                        other.bits@[(c / 64) as int],
                        (c % 64) as u64,
                    );
                }
            }
            assert(self@ =~= old(self)@.union(other@));
        }
    }

    /// The CPUs of the mask, ascending.
    pub fn cpus(&self) -> (r: Vec<usize>)
        ensures
            r@ == self.members(),
    {
        let mut r: Vec<usize> = Vec::new();
        let mut c: usize = 0;
        while c < CPU_SETSIZE
            invariant
                c <= CPU_SETSIZE,
                r@ == cpus_below(self.bits@, c as nat),
            decreases CPU_SETSIZE - c,
        {
            if ((self.bits[c / 64] >> ((c % 64) as u64)) & 1u64) == 1u64 {
                r.push(c);
            }
            c = c + 1;
            assert(r@ =~= cpus_below(self.bits@, c as nat));
        }
        r
    }

    /// The number of CPUs in the mask.
    pub fn count(&self) -> (r: usize)
        ensures
            r == self@.len(),
    {
        let mut n: usize = 0;
        let mut c: usize = 0;
        while c < CPU_SETSIZE
            invariant
                c <= CPU_SETSIZE,
                n == cpus_below(self.bits@, c as nat).len(),
                n <= c,
            decreases CPU_SETSIZE - c,
        {
            if ((self.bits[c / 64] >> ((c % 64) as u64)) & 1u64) == 1u64 {
                n = n + 1;
            }
            c = c + 1;
        }
        proof {
            lemma_members(*self);
        }
        n
    }

    /// The mask as a CPU list (`0-3,6`); the empty mask gives the empty
    /// string.
    pub fn to_range_string(&self) -> (r: String)
        ensures
            r@ == render_runs(runs(self.members())),
    {
        let v = self.cpus();
        let rs = collect_runs(v.as_slice());
        render(&rs)
    }

    /// Whether two masks hold the same CPUs.
    pub fn same(&self, other: &CpuSet) -> (r: bool)
        ensures
            r == (self@ == other@),
    {
        let mut c: usize = 0;
        while c < CPU_SETSIZE
            invariant
                c <= CPU_SETSIZE,
                forall|d: usize| d < c ==> (self@.contains(d) == other@.contains(d)),
            decreases CPU_SETSIZE - c,
        {
            if self.has(c) != other.has(c) {
                return false;
            }
            c = c + 1;
        }
        assert(self@ =~= other@);
        true
    }
}

/// The mask of the CPUs that a CPU list names (`0-3,6`); CPUs at or above
/// `CPU_SETSIZE` are left out.
pub fn from_range(s: &str) -> (r: CpuSet)
    ensures
        r@ == list_mask(s@),
{
    let list = parse_cpu_list(s);
    let mut r = CpuSet::new();
    let mut i: usize = 0;
    while i < list.len()
        invariant
            i <= list@.len(),
            list@ == cpu_list(s@),
            r@ == Set::new(|c: usize| c < CPU_SETSIZE && list@.take(i as int).contains(c)),
        decreases list@.len() - i,
    {
        let c = list[i];
        let ghost before = r@;
        if c < CPU_SETSIZE {
            r.set(c);
        }
        proof {
            let t0 = list@.take(i as int);
            let t1 = list@.take(i + 1);
            assert(t1 =~= t0.push(c));
            assert forall|x: usize| t1.contains(x) == (t0.contains(x) || x == c) by {
                if t1.contains(x) && x != c {
                    let k = choose|k: int| 0 <= k < t1.len() && t1[k] == x;
                    assert(t0[k] == x);
                }
                if t0.contains(x) {
                    let k = choose|k: int| 0 <= k < t0.len() && t0[k] == x;
                    assert(t1[k] == x);
                }
                if x == c {
                    assert(t1[i as int] == x);
                }
            }
        }
        i = i + 1;
        assert(r@ =~= Set::new(|c: usize| c < CPU_SETSIZE && list@.take(i as int).contains(c)));
    }
    assert(list@.take(list@.len() as int) =~= list@);
    assert(r@ =~= list_mask(s@));
    r
}

impl CpuSet {
    /// The mask of the CPUs that a CPU list names; see `from_range`.
    pub fn from_range(s: &str) -> (r: CpuSet)
        ensures
            r@ == list_mask(s@),
    {
        from_range(s)
    }
}

/// The members of a CPU mask below `n`, ascending.
pub open spec fn mask_members(m: Set<usize>, n: nat) -> Seq<usize>
    decreases n,
{
    if n == 0 {
        Seq::empty()
    } else {
        mask_members(m, (n - 1) as nat) + (if m.contains((n - 1) as usize) {
            seq![(n - 1) as usize]
        } else {
            Seq::empty()
        })
    }
}

/// The cpuset group for threads bound to the mask `m`: a group named by
/// the mask's CPU list (`0-3,6`) under the base cpuset, or none (the empty
/// name) when the cpuset hierarchy is not mounted.
pub open spec fn dir_text(m: Set<usize>, topo: CpuTopology) -> Seq<char> {
    if topo.cpuset_enabled {
        render_runs(runs(mask_members(m, CPU_SETSIZE as nat)))
    } else {
        Seq::empty()
    }
}

proof fn lemma_mask_members(s: CpuSet, n: nat)
    requires
        n <= CPU_SETSIZE,
    ensures
        cpus_below(s.bits@, n) == mask_members(s@, n),
    decreases n,
{
    if n > 0 {
        lemma_mask_members(s, (n - 1) as nat);
        assert(s@.contains((n - 1) as usize) == has_cpu(s.bits@, n - 1));
    }
}

/// A mask holds finitely many CPUs.
pub proof fn lemma_mask_finite(s: CpuSet)
    ensures
        s@.finite(),
        s@.len() == 0 <==> s@ == Set::<usize>::empty(),
{
    lemma_members(s);
    vstd::seq_lib::seq_to_set_is_finite(s.members());
    if s@.len() == 0 {
        vstd::set_lib::lemma_set_empty_equivalency_len(s@);
    }
}

/// The cpuset group for threads bound to `cpus`; see `dir_text`.
pub fn cpuset_dir_for(cpus: &CpuSet, topo: &CpuTopology) -> (r: String)
    ensures
        r@ == dir_text(cpus@, *topo),
{
    if !topo.cpuset_enabled {
        return String::new();
    }
    proof {
        lemma_mask_members(*cpus, CPU_SETSIZE as nat);
    }
    cpus.to_range_string()
}

/// Parsing a mask's CPU list gives the mask back:
/// `from_range(&c.to_range_string())` holds the CPUs of `c`.
pub proof fn lemma_range_string_roundtrip(c: CpuSet)
    ensures
        list_mask(render_runs(runs(c.members()))) == c@,
{
    lemma_members(c);
    lemma_cpus_below_props(c.bits@, CPU_SETSIZE as nat);
    let m = c.members();
    if m.len() == 0 {
        let t = render_runs(runs(m));
        assert(t =~= Seq::<char>::empty());
        assert(split_fields(t, false) == seq![Seq::<char>::empty()]);
        assert(seq![Seq::<char>::empty()].drop_last() =~= Seq::<Seq<char>>::empty());
        let e = Seq::<char>::empty();
        assert(trim(e) =~= e);
        assert(field_cpus(e) =~= Seq::<usize>::empty());
        assert(fields_cpus(Seq::<Seq<char>>::empty()) == Seq::<usize>::empty());
        assert(fields_cpus(seq![e]) == fields_cpus(seq![e].drop_last()) + field_cpus(trim(e)));
        assert(cpu_list(t) =~= Seq::<usize>::empty());
        assert(list_mask(t) =~= c@);
    } else {
        lemma_cpu_list_roundtrip(m);
        assert(list_mask(render_runs(runs(m))) =~= c@);
    }
}

} // verus!
