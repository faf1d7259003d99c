//! Candidates and their ordering: a candidate is one image name within a
//! family, with its payload identifier and its segment bitmask.  The
//! total order is family rank, then name, then payload; the bitmask is
//! derived data and takes no part in the order.
use vstd::prelude::*;
use vstd::multiset::Multiset;
use crate::filter::Filter;
use crate::text::spec_str_lt;
use crate::text::str_lt;

verus! {

/// The family of a candidate.
#[derive(Clone, Copy, Debug, PartialEq, Eq, Structural)]
pub enum OperatingSystem {
    All,
    Amazon,
    Debian,
    Ubuntu,
}

/// The rank deciding how families are ordered in output.
pub open spec fn os_rank(os: OperatingSystem) -> int {
    match os {
        OperatingSystem::All => 1,
        OperatingSystem::Amazon => 2,
        OperatingSystem::Debian => 3,
        OperatingSystem::Ubuntu => 4,
    }
}

/// The display text of a family.
pub open spec fn spec_os_text(os: OperatingSystem) -> Seq<char> {
    match os {
        OperatingSystem::All => "All"@,
        OperatingSystem::Amazon => "Amazon Linux"@,
        OperatingSystem::Debian => "Debian"@,
        OperatingSystem::Ubuntu => "Ubuntu"@,
    }
}

impl OperatingSystem {
    /// The rank deciding how families are ordered in output.
    pub fn rank(&self) -> (r: usize)
        ensures
            r == os_rank(*self),
    {
        match self {
            OperatingSystem::All => 1,
            OperatingSystem::Amazon => 2,
            OperatingSystem::Debian => 3,
            OperatingSystem::Ubuntu => 4,
        }
    }

    /// The display text of this family.
    pub fn text(&self) -> (r: &'static str)
        ensures
            r@ == spec_os_text(*self),
    {
        match self {
            OperatingSystem::All => "All",
            OperatingSystem::Amazon => "Amazon Linux",
            OperatingSystem::Debian => "Debian",
            OperatingSystem::Ubuntu => "Ubuntu",
        }
    }

    /// The number of characters of the display text.
    pub fn text_width(&self) -> (r: usize)
        ensures
            r == spec_os_text(*self).len(),
    {
        proof {
            reveal_strlit("All");
            reveal_strlit("Amazon Linux");
            reveal_strlit("Debian");
            reveal_strlit("Ubuntu");
        }
        match self {
            OperatingSystem::All => 3,
            OperatingSystem::Amazon => 12,
            OperatingSystem::Debian => 6,
            OperatingSystem::Ubuntu => 6,
        }
    }
}

/// The target architecture of a selection run.
#[derive(Clone, Copy, Debug, PartialEq, Eq, Structural)]
pub enum Architecture {
    All,
    Amd64,
    Arm64,
}

/// The segment token naming an architecture.
pub open spec fn spec_arch_token(a: Architecture) -> Seq<char> {
    match a {
        Architecture::All => "all"@,
        Architecture::Amd64 => "amd64"@,
        Architecture::Arm64 => "arm64"@,
    }
}

impl Architecture {
    /// The segment token naming this architecture.
    pub fn token(&self) -> (r: &'static str)
        ensures
            r@ == spec_arch_token(*self),
    {
        match self {
            Architecture::All => "all",
            Architecture::Amd64 => "amd64",
            Architecture::Arm64 => "arm64",
        }
    }

    /// The instance group suited to this architecture; meaningless when
    /// no single architecture was chosen.
    pub fn instance_group(&self) -> (r: &'static str)
        requires
            *self != Architecture::All,
        ensures
            *self == Architecture::Amd64 ==> r@ == "t3a"@,
            *self == Architecture::Arm64 ==> r@ == "t4g"@,
    {
        match self {
            Architecture::All => "",
            Architecture::Amd64 => "t3a",
            Architecture::Arm64 => "t4g",
        }
    }
}

/// What a selection run was asked to do.
pub struct SelectOptions {
    pub operating_system: OperatingSystem,
    pub architecture: Architecture,
    pub singleton: bool,
    pub just_ami: bool,
    pub smoke_test: bool,
    pub region: String,
}

impl SelectOptions {
    /// Whether the caller demanded exactly one result.
    pub fn can_only_be_one(&self) -> (r: bool)
        ensures
            r == (self.singleton || self.smoke_test),
    {
        self.singleton || self.smoke_test
    }

    /// Whether the Amazon Linux family takes part in this run.
    pub fn include_amazon(&self) -> (r: bool)
        ensures
            r == (self.operating_system == OperatingSystem::All || self.operating_system
                == OperatingSystem::Amazon),
    {
        match self.operating_system {
            OperatingSystem::All | OperatingSystem::Amazon => true,
            _ => false,
        }
    }

    /// Whether the Debian family takes part in this run.
    pub fn include_debian(&self) -> (r: bool)
        ensures
            r == (self.operating_system == OperatingSystem::All || self.operating_system
                == OperatingSystem::Debian),
    {
        match self.operating_system {
            OperatingSystem::All | OperatingSystem::Debian => true,
            _ => false,
        }
    }

    /// Whether the Ubuntu family takes part in this run.
    pub fn include_ubuntu(&self) -> (r: bool)
        ensures
            r == (self.operating_system == OperatingSystem::All || self.operating_system
                == OperatingSystem::Ubuntu),
    {
        match self.operating_system {
            OperatingSystem::All | OperatingSystem::Ubuntu => true,
            _ => false,
        }
    }

    /// The instance group suited to the chosen architecture.
    pub fn instance_group(&self) -> (r: &'static str)
        requires
            self.architecture != Architecture::All,
        ensures
            self.architecture == Architecture::Amd64 ==> r@ == "t3a"@,
            self.architecture == Architecture::Arm64 ==> r@ == "t4g"@,
    {
        self.architecture.instance_group()
    }
}

/// The mathematical content of a candidate.
#[verifier::ext_equal]
pub struct DetailView {
    pub operating_system: OperatingSystem,
    pub name: Seq<char>,
    pub ami: Seq<char>,
    pub bitmask: u128,
}

/// One candidate: family, prefix-stripped display name, payload image
/// identifier, and the bitmask of its segments.
#[derive(Debug)]
pub struct AmiDetail {
    pub operating_system: OperatingSystem,
    pub name: String,
    pub ami: String,
    pub bitmask: u128,
}

impl View for AmiDetail {
    type V = DetailView;

    open spec fn view(&self) -> DetailView {
        DetailView {
            operating_system: self.operating_system,
            name: self.name@,
            ami: self.ami@,
            bitmask: self.bitmask,
        }
    }
}

/// The views of a sequence of candidates.
pub open spec fn detail_views(v: Seq<AmiDetail>) -> Seq<DetailView> {
    Seq::new(v.len(), |i: int| v[i]@)
}

/// The strict total order on candidates: family rank, then name, then
/// payload, each lexicographic; the bitmask is ignored.
pub open spec fn spec_detail_lt(a: DetailView, b: DetailView) -> bool {
    ||| os_rank(a.operating_system) < os_rank(b.operating_system)
    ||| (os_rank(a.operating_system) == os_rank(b.operating_system) && (spec_str_lt(a.name, b.name)
        || (a.name == b.name && spec_str_lt(a.ami, b.ami))))
}

/// Whether candidate `a` precedes candidate `b`.
pub fn detail_lt(a: &AmiDetail, b: &AmiDetail) -> (r: bool)
    ensures
        r == spec_detail_lt(a@, b@),
{
    let ar = a.operating_system.rank();
    let br = b.operating_system.rank();
    if ar < br {
        true
    } else if ar > br {
        false
    } else if crate::text::str_eq(a.name.as_str(), b.name.as_str()) {
        proof {
            lemma_str_lt_irrefl(a@.name);
        }
        str_lt(a.ami.as_str(), b.ami.as_str())
    } else {
        str_lt(a.name.as_str(), b.name.as_str())
    }
}

/// No string precedes itself.
pub proof fn lemma_str_lt_irrefl(n: Seq<char>)
    ensures
        !spec_str_lt(n, n),
    decreases n.len(),
{
    if n.len() > 0 {
        lemma_str_lt_irrefl(n.skip(1));
    }
}

/// Where a stable insertion sort places `x` in `s`: after every element
/// not strictly greater than `x`, before the first strictly greater one.
pub open spec fn sorted_insert(x: DetailView, s: Seq<DetailView>) -> Seq<DetailView>
    decreases s.len(),
{
    if s.len() == 0 {
        seq![x]
    } else if spec_detail_lt(x, s[0]) {
        seq![x] + s
    } else {
        seq![s[0]] + sorted_insert(x, s.skip(1))
    }
}

/// The stable insertion sort of `s`, element by element from the left.
pub open spec fn spec_sort(s: Seq<DetailView>) -> Seq<DetailView>
    decreases s.len(),
{
    if s.len() == 0 {
        Seq::empty()
    } else {
        sorted_insert(s.last(), spec_sort(s.drop_last()))
    }
}

/// Inserting at the scanned position is what `sorted_insert` does.
proof fn lemma_sorted_insert_at(x: DetailView, s: Seq<DetailView>, p: int)
    requires
        0 <= p <= s.len(),
        forall|k: int| 0 <= k < p ==> !spec_detail_lt(x, #[trigger] s[k]),
        p < s.len() ==> spec_detail_lt(x, s[p]),
    ensures
        sorted_insert(x, s) == s.take(p) + seq![x] + s.skip(p),
    decreases s.len(),
{
    if s.len() == 0 {
        assert(sorted_insert(x, s) =~= s.take(p) + seq![x] + s.skip(p));
    } else if p == 0 {
        if spec_detail_lt(x, s[0]) {
            assert(sorted_insert(x, s) =~= s.take(0) + seq![x] + s.skip(0));
        } else {
            assert(false);
        }
    } else {
        assert(!spec_detail_lt(x, s[0]));
        assert(forall|k: int| 0 <= k < p - 1 ==> s.skip(1)[k] == s[k + 1]);
        lemma_sorted_insert_at(x, s.skip(1), p - 1);
        assert(sorted_insert(x, s) == seq![s[0]] + (s.skip(1).take(p - 1) + seq![x] + s.skip(
            1,
        ).skip(p - 1)));
        assert(seq![s[0]] + (s.skip(1).take(p - 1) + seq![x] + s.skip(1).skip(p - 1)) =~= s.take(p)
            + seq![x] + s.skip(p));
    }
}

/// Sorts candidates by family rank, then name, then payload, keeping the
/// arrival order of candidates that compare equal.
#[verifier::loop_isolation(false)]
pub fn sort_details(details: Vec<AmiDetail>) -> (r: Vec<AmiDetail>)
    ensures
        detail_views(r@) == spec_sort(detail_views(details@)),
{
    let ghost orig = detail_views(details@);
    let mut rest = details;
    let total = rest.len();
    let mut res: Vec<AmiDetail> = Vec::new();
    proof {
        assert(detail_views(res@) =~= spec_sort(orig.take(0)));
        assert(detail_views(rest@) =~= orig.skip(0));
    }
    let mut i: usize = 0;
    while rest.len() > 0
        invariant
            0 <= i <= total,
            i + rest@.len() == total == orig.len(),
            detail_views(rest@) == orig.skip(i as int),
            detail_views(res@) == spec_sort(orig.take(i as int)),
        decreases rest@.len(),
    {
        let ghost prev = rest@;
        let x = rest.remove(0);
        proof {
            assert forall|k: int| 0 <= k < prev.len() implies prev[k]@ == orig[i + k] by {
                assert(detail_views(prev)[k] == prev[k]@);
                assert(orig.skip(i as int)[k] == orig[i + k]);
            }
            assert(x@ == orig[i as int]);
            assert(detail_views(rest@) =~= orig.skip(i + 1));
        }
        let mut p: usize = 0;
        let n = res.len();
        while p < n
            invariant
                0 <= p <= n == res@.len(),
                forall|k: int| 0 <= k < p ==> !spec_detail_lt(x@, #[trigger] detail_views(res@)[k]),
            decreases n - p,
        {
            if detail_lt(&x, &res[p]) {
                proof {
                    assert(detail_views(res@)[p as int] == res@[p as int]@);
                }
                break ;
            }
            proof {
                assert(detail_views(res@)[p as int] == res@[p as int]@);
            }
            p = p + 1;
        }
        proof {
            lemma_sorted_insert_at(x@, detail_views(res@), p as int);
        }
        let ghost before = detail_views(res@);
        res.insert(p, x);
        proof {
            assert(detail_views(res@) =~= before.take(p as int) + seq![x@] + before.skip(p as int));
            assert(orig.take(i + 1).drop_last() =~= orig.take(i as int));
            assert(orig.take(i + 1).last() == orig[i as int]);
            assert(detail_views(res@) =~= spec_sort(orig.take(i + 1)));
        }
        i = i + 1;
    }
    proof {
        assert(orig.take(orig.len() as int) =~= orig);
    }
    res
}

/// What remains of `s` after the filter: exactly the candidates whose
/// bitmask the filter accepts, in their original order.
pub open spec fn spec_filter_details(s: Seq<DetailView>, f: Filter) -> Seq<DetailView>
    decreases s.len(),
{
    if s.len() == 0 {
        Seq::empty()
    } else {
        let p = spec_filter_details(s.drop_last(), f);
        if f.spec_matches(s.last().bitmask) {
            p.push(s.last())
        } else {
            p
        }
    }
}

/// One family's candidates together with the filter derived for them.
pub struct AmiDetailsWithFilter {
    pub details: Vec<AmiDetail>,
    pub filter: Filter,
}

impl AmiDetailsWithFilter {
    /// Pairs a family's candidates with their filter.
    pub fn new(details: Vec<AmiDetail>, filter: Filter) -> (r: Self)
        ensures
            r.details == details,
            r.filter == filter,
    {
        AmiDetailsWithFilter { details, filter }
    }

    /// The candidates that pass the filter, in order.
    #[verifier::loop_isolation(false)]
    pub fn into_filtered(self) -> (r: Vec<AmiDetail>)
        ensures
            detail_views(r@) == spec_filter_details(detail_views(self.details@), self.filter),
    {
        let ghost orig = detail_views(self.details@);
        let AmiDetailsWithFilter { details, filter } = self;
        let mut rest = details;
        let total = rest.len();
        let mut res: Vec<AmiDetail> = Vec::new();
        let mut i: usize = 0;
        proof {
            assert(detail_views(res@) =~= spec_filter_details(orig.take(0), filter));
            assert(detail_views(rest@) =~= orig.skip(0));
        }
        while rest.len() > 0
            invariant
                0 <= i <= total,
                i + rest@.len() == total == orig.len(),
                detail_views(rest@) == orig.skip(i as int),
                detail_views(res@) == spec_filter_details(orig.take(i as int), filter),
            decreases rest@.len(),
        {
            let ghost prev = rest@;
            let x = rest.remove(0);
            proof {
                assert forall|k: int| 0 <= k < prev.len() implies prev[k]@ == orig[i + k] by {
                    assert(detail_views(prev)[k] == prev[k]@);
                    assert(orig.skip(i as int)[k] == orig[i + k]);
                }
                assert(x@ == orig[i as int]);
                assert(detail_views(rest@) =~= orig.skip(i + 1));
                assert(orig.take(i + 1).drop_last() =~= orig.take(i as int));
                assert(orig.take(i + 1).last() == orig[i as int]);
            }
            let ghost before = detail_views(res@);
            if filter.matches(x.bitmask) {
                res.push(x);
                proof {
                    assert(detail_views(res@) =~= before.push(orig[i as int]));
                    assert(detail_views(res@) =~= spec_filter_details(orig.take(i + 1), filter));
                }
            } else {
                proof {
                    assert(detail_views(res@) =~= spec_filter_details(orig.take(i + 1), filter));
                }
            }
            i = i + 1;
        }
        proof {
            assert(orig.take(orig.len() as int) =~= orig);
        }
        res
    }
}


/// Lexicographic order on strings is transitive.
pub proof fn lemma_str_lt_trans(a: Seq<char>, b: Seq<char>, c: Seq<char>)
    requires
        spec_str_lt(a, b),
        spec_str_lt(b, c),
    ensures
        spec_str_lt(a, c),
    decreases a.len(),
{
    if a.len() == 0 {
    } else {
        if (a[0] as u32) < (b[0] as u32) {
            if (b[0] as u32) <= (c[0] as u32) {
            } else {
                assert(false);
            }
        } else {
            assert((a[0] as u32) == (b[0] as u32));
            if (b[0] as u32) < (c[0] as u32) {
            } else {
                assert((b[0] as u32) == (c[0] as u32));
                lemma_str_lt_trans(a.skip(1), b.skip(1), c.skip(1));
            }
        }
    }
}

/// The candidate order is transitive.
pub proof fn lemma_detail_lt_trans(a: DetailView, b: DetailView, c: DetailView)
    requires
        spec_detail_lt(a, b),
        spec_detail_lt(b, c),
    ensures
        spec_detail_lt(a, c),
{
    if os_rank(a.operating_system) == os_rank(b.operating_system) && os_rank(b.operating_system)
        == os_rank(c.operating_system) {
        if spec_str_lt(a.name, b.name) && spec_str_lt(b.name, c.name) {
            lemma_str_lt_trans(a.name, b.name, c.name);
        } else if a.name == b.name && b.name == c.name {
            lemma_str_lt_trans(a.ami, b.ami, c.ami);
        }
    }
}

/// Whether the candidates appear in order: no later one precedes an
/// earlier one.
pub open spec fn sorted_details(s: Seq<DetailView>) -> bool {
    forall|i: int, j: int| 0 <= i < j < s.len() ==> !spec_detail_lt(#[trigger] s[j], #[trigger] s[i])
}

/// The candidate order is irreflexive.
pub proof fn lemma_detail_lt_irrefl(a: DetailView)
    ensures
        !spec_detail_lt(a, a),
{
    lemma_str_lt_irrefl(a.name);
    lemma_str_lt_irrefl(a.ami);
}

/// Inserting one candidate grows the sequence by one.
proof fn lemma_sorted_insert_len(x: DetailView, s: Seq<DetailView>)
    ensures
        sorted_insert(x, s).len() == s.len() + 1,
    decreases s.len(),
{
    if s.len() > 0 && !spec_detail_lt(x, s[0]) {
        lemma_sorted_insert_len(x, s.skip(1));
    }
}

/// Every element of an insertion is the inserted one or one of the old
/// ones.
proof fn lemma_sorted_insert_origin(x: DetailView, s: Seq<DetailView>, k: int)
    requires
        0 <= k < sorted_insert(x, s).len(),
    ensures
        sorted_insert(x, s)[k] == x || s.contains(sorted_insert(x, s)[k]),
    decreases s.len(),
{
    lemma_sorted_insert_len(x, s);
    if s.len() == 0 {
    } else if spec_detail_lt(x, s[0]) {
        if k > 0 {
            assert(sorted_insert(x, s)[k] == s[k - 1]);
        }
    } else {
        if k == 0 {
            assert(sorted_insert(x, s)[0] == s[0]);
        } else {
            lemma_sorted_insert_len(x, s.skip(1));
            assert(sorted_insert(x, s)[k] == sorted_insert(x, s.skip(1))[k - 1]);
            lemma_sorted_insert_origin(x, s.skip(1), k - 1);
            if sorted_insert(x, s.skip(1))[k - 1] != x {
                let w = choose|w: int|
                    0 <= w < s.skip(1).len() && s.skip(1)[w] == sorted_insert(x, s.skip(1))[k - 1];
                assert(s[w + 1] == sorted_insert(x, s.skip(1))[k - 1]);
            }
        }
    }
}

/// Inserting into a sorted sequence keeps it sorted.
proof fn lemma_sorted_insert_sorted(x: DetailView, s: Seq<DetailView>)
    requires
        sorted_details(s),
    ensures
        sorted_details(sorted_insert(x, s)),
    decreases s.len(),
{
    let r = sorted_insert(x, s);
    lemma_sorted_insert_len(x, s);
    if s.len() == 0 {
    } else if spec_detail_lt(x, s[0]) {
        assert forall|i: int, j: int| 0 <= i < j < r.len() implies !spec_detail_lt(r[j], r[i]) by {
            if i == 0 {
                assert(r[j] == s[j - 1]);
                if spec_detail_lt(s[j - 1], x) {
                    lemma_detail_lt_trans(s[j - 1], x, s[0]);
                    lemma_detail_lt_irrefl(s[0]);
                }
            } else {
                assert(r[i] == s[i - 1] && r[j] == s[j - 1]);
            }
        }
    } else {
        assert(forall|k: int| 0 <= k < s.len() - 1 ==> s.skip(1)[k] == s[k + 1]);
        lemma_sorted_insert_sorted(x, s.skip(1));
        assert forall|i: int, j: int| 0 <= i < j < r.len() implies !spec_detail_lt(r[j], r[i]) by {
            if i == 0 {
                assert(r[0] == s[0]);
                assert(r[j] == sorted_insert(x, s.skip(1))[j - 1]);
                lemma_sorted_insert_origin(x, s.skip(1), j - 1);
                if r[j] == x {
                    assert(!spec_detail_lt(x, s[0]));
                } else {
                    let w = choose|w: int| 0 <= w < s.skip(1).len() && s.skip(1)[w] == r[j];
                    assert(s[w + 1] == r[j]);
                    assert(!spec_detail_lt(s[w + 1], s[0]));
                }
            } else {
                assert(r[i] == sorted_insert(x, s.skip(1))[i - 1]);
                assert(r[j] == sorted_insert(x, s.skip(1))[j - 1]);
            }
        }
    }
}

/// Inserting adds exactly the inserted candidate to the contents.
proof fn lemma_sorted_insert_multiset(x: DetailView, s: Seq<DetailView>)
    ensures
        sorted_insert(x, s).to_multiset() == s.to_multiset().insert(x),
    decreases s.len(),
{
    broadcast use vstd::seq_lib::group_seq_properties;

    if s.len() == 0 {
        assert(sorted_insert(x, s) =~= Seq::empty().push(x));
        assert(Seq::<DetailView>::empty().push(x).to_multiset() =~= Seq::<
            DetailView,
        >::empty().to_multiset().insert(x));
    } else if spec_detail_lt(x, s[0]) {
        assert(sorted_insert(x, s) =~= (seq![x] + s));
        vstd::seq_lib::lemma_multiset_commutative(seq![x], s);
        assert(seq![x] =~= Seq::empty().push(x));
        assert(seq![x].to_multiset() =~= Multiset::empty().insert(x));
        assert((seq![x] + s).to_multiset() =~= s.to_multiset().insert(x));
    } else {
        lemma_sorted_insert_multiset(x, s.skip(1));
        assert(sorted_insert(x, s) =~= (seq![s[0]] + sorted_insert(x, s.skip(1))));
        vstd::seq_lib::lemma_multiset_commutative(seq![s[0]], sorted_insert(x, s.skip(1)));
        assert(seq![s[0]] =~= Seq::empty().push(s[0]));
        assert(seq![s[0]].to_multiset() =~= Multiset::empty().insert(s[0]));
        assert(s =~= (seq![s[0]] + s.skip(1)));
        vstd::seq_lib::lemma_multiset_commutative(seq![s[0]], s.skip(1));
        assert(sorted_insert(x, s).to_multiset() =~= s.to_multiset().insert(x));
    }
}

/// The sort's result is ordered: family rank first, then name, then
/// payload.
pub proof fn lemma_spec_sort_sorted(s: Seq<DetailView>)
    ensures
        sorted_details(spec_sort(s)),
    decreases s.len(),
{
    if s.len() > 0 {
        lemma_spec_sort_sorted(s.drop_last());
        lemma_sorted_insert_sorted(s.last(), spec_sort(s.drop_last()));
    }
}

/// The sort keeps exactly the candidates it was given: its result is a
/// permutation of its input.
pub proof fn lemma_spec_sort_permutes(s: Seq<DetailView>)
    ensures
        spec_sort(s).to_multiset() == s.to_multiset(),
    decreases s.len(),
{
    broadcast use vstd::seq_lib::group_seq_properties;

    if s.len() > 0 {
        lemma_spec_sort_permutes(s.drop_last());
        lemma_sorted_insert_multiset(s.last(), spec_sort(s.drop_last()));
        assert(s =~= s.drop_last().push(s.last()));
        assert(s.drop_last().push(s.last()).to_multiset() =~= s.drop_last().to_multiset().insert(
            s.last(),
        ));
    }
}

} // verus!
