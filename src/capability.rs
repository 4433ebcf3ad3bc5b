//! Capability-list text: `"cap_sys_module, cap_net_admin"` or the legacy
//! `"= cap_sys_module+eip"` notation, whose flag suffixes are ignored.
use vstd::prelude::*;
use vstd::string::*;

verus! {

/// A name for what `str::to_uppercase` returns.
pub uninterp spec fn upper_of(s: Seq<char>) -> Seq<char>;

/// A name for the capability index that `caps` gives to a name, if any.
pub uninterp spec fn cap_index_of_name(s: Seq<char>) -> Option<u8>;

/// Text made only of ASCII capital letters and underscores, as every
/// capability name is.
pub open spec fn is_name_text(s: Seq<char>) -> bool {
    s.len() > 0 && forall|i: int| 0 <= i < s.len() ==> (('A' <= #[trigger] s[i] && s[i] <= 'Z') || s[i] == '_')
}

/// Relies on `str::to_uppercase`: the result depends on the text alone.
#[verifier::external_body]
fn uppercase(s: &str) -> (r: String)
    ensures
        r@ == upper_of(s@),
{
    s.to_uppercase()
}

/// Relies on `caps::Capability::from_str`, which accepts exactly the
/// upper-case names such as `CAP_SYS_MODULE`, and on `Capability::index`,
/// the kernel's number for it (below 64).
#[verifier::external_body]
fn lookup_capability(name: &str) -> (r: Option<u8>)
    ensures
        r == cap_index_of_name(name@),
        r is Some ==> r->0 < 64 && is_name_text(name@),
{
    <caps::Capability as std::str::FromStr>::from_str(name).ok().map(|c| c.index())
}

/// The Unicode `White_Space` characters, which `str::trim` strips.
pub open spec fn is_space(c: char) -> bool {
    let u = c as u32;
    (9 <= u && u <= 13) || u == 32 || u == 0x85 || u == 0xA0 || u == 0x1680
        || (0x2000 <= u && u <= 0x200A) || u == 0x2028 || u == 0x2029 || u == 0x202F
        || u == 0x205F || u == 0x3000
}

/// A character that ends a token: white space or a comma.
pub open spec fn is_separator(c: char) -> bool {
    is_space(c) || c == ','
}

/// A character that starts the flag suffix of a token (`+eip`, `-e`).
pub open spec fn is_flag_mark(c: char) -> bool {
    c == '+' || c == '-'
}

pub fn is_space_char(c: char) -> (r: bool)
    ensures
        r == is_space(c),
{
    let u = c as u32;
    (9 <= u && u <= 13) || u == 32 || u == 0x85 || u == 0xA0 || u == 0x1680
        || (0x2000 <= u && u <= 0x200A) || u == 0x2028 || u == 0x2029 || u == 0x202F
        || u == 0x205F || u == 0x3000
}

/// The text without white space at its start.
pub open spec fn trim_front(s: Seq<char>) -> Seq<char>
    decreases s.len(),
{
    if s.len() > 0 && is_space(s[0]) {
        trim_front(s.drop_first())
    } else {
        s
    }
}

/// The text without white space at its end.
pub open spec fn trim_back(s: Seq<char>) -> Seq<char>
    decreases s.len(),
{
    if s.len() > 0 && is_space(s.last()) {
        trim_back(s.drop_last())
    } else {
        s
    }
}

/// The text without the `=` signs at its start.
pub open spec fn strip_assign(s: Seq<char>) -> Seq<char>
    decreases s.len(),
{
    if s.len() > 0 && s[0] == '=' {
        strip_assign(s.drop_first())
    } else {
        s
    }
}

pub open spec fn trim(s: Seq<char>) -> Seq<char> {
    trim_back(trim_front(s))
}

/// The list text once outer white space and a leading assignment are gone.
pub open spec fn clean_text(s: Seq<char>) -> Seq<char> {
    trim(strip_assign(trim(s)))
}

/// The fields between separators, empty ones included.
pub open spec fn fields(s: Seq<char>) -> Seq<Seq<char>>
    decreases s.len(),
{
    if s.len() == 0 {
        seq![Seq::<char>::empty()]
    } else {
        let f = fields(s.drop_last());
        if is_separator(s.last()) {
            f.push(Seq::<char>::empty())
        } else {
            f.update(f.len() - 1, f.last().push(s.last()))
        }
    }
}

/// The fields that are not empty, in order.
pub open spec fn nonempty(fs: Seq<Seq<char>>) -> Seq<Seq<char>>
    decreases fs.len(),
{
    if fs.len() == 0 {
        fs
    } else if fs.last().len() > 0 {
        nonempty(fs.drop_last()).push(fs.last())
    } else {
        nonempty(fs.drop_last())
    }
}

/// The tokens of a list text.
pub open spec fn tokens(s: Seq<char>) -> Seq<Seq<char>> {
    nonempty(fields(s))
}

/// The part of a token before its first flag mark.
pub open spec fn name_part(t: Seq<char>) -> Seq<char>
    decreases t.len(),
{
    if t.len() == 0 || is_flag_mark(t[0]) {
        Seq::<char>::empty()
    } else {
        seq![t[0]] + name_part(t.drop_first())
    }
}

/// The upper-case form of a name; one that is upper case already stays.
pub open spec fn canonical_name(n: Seq<char>) -> Seq<char> {
    if is_name_text(n) {
        n
    } else {
        upper_of(n)
    }
}

/// The capability that a token names.
pub open spec fn token_cap(t: Seq<char>) -> Option<u8> {
    cap_index_of_name(canonical_name(name_part(t)))
}

/// The capabilities that a list of tokens names, or the name part of the
/// first token that names none.
pub open spec fn resolve_all(ts: Seq<Seq<char>>) -> Result<Set<u8>, Seq<char>>
    decreases ts.len(),
{
    if ts.len() == 0 {
        Ok(Set::empty())
    } else {
        match resolve_all(ts.drop_last()) {
            Err(e) => Err(e),
            Ok(set) => match token_cap(ts.last()) {
                Some(i) => Ok(set.insert(i)),
                None => Err(name_part(ts.last())),
            },
        }
    }
}

/// What a capability-list text means: `None` where it holds no list at all,
/// else the set it names, or the name part of the first bad token.
pub open spec fn parse_spec(s: Seq<char>) -> Result<Option<Set<u8>>, Seq<char>> {
    let c = clean_text(s);
    if c.len() == 0 {
        Ok(None)
    } else {
        match resolve_all(tokens(c)) {
            Ok(set) => Ok(Some(set)),
            Err(e) => Err(e),
        }
    }
}

/// One capability: the kernel's index for it and its name.
pub struct Cap {
    pub index: u8,
    pub name: String,
}

impl Cap {
    pub open spec fn wf(&self) -> bool {
        &&& cap_index_of_name(self.name@) == Some(self.index)
        &&& self.index < 64
        &&& is_name_text(self.name@)
    }
}

/// A set of capabilities, each held once.
pub struct CapabilitySet {
    pub caps: Vec<Cap>,
}

impl View for CapabilitySet {
    type V = Set<u8>;

    open spec fn view(&self) -> Set<u8> {
        Set::new(|x: u8| exists|j: int| 0 <= j < self.caps@.len() && (#[trigger] self.caps@[j]).index == x)
    }
}

impl CapabilitySet {
    pub open spec fn wf(&self) -> bool {
        &&& forall|j: int| 0 <= j < self.caps@.len() ==> (#[trigger] self.caps@[j]).wf()
        &&& forall|j: int, k: int|
            0 <= j < k < self.caps@.len() ==> (#[trigger] self.caps@[j]).index != (#[trigger] self.caps@[k]).index
    }

    pub fn new() -> (r: CapabilitySet)
        ensures
            r.wf(),
            r@ == Set::<u8>::empty(),
    {
        let r = CapabilitySet { caps: Vec::new() };
        assert(r@ =~= Set::<u8>::empty());
        r
    }

    pub fn len(&self) -> (r: usize)
        requires
            self.wf(),
        ensures
            r == self.caps@.len(),
    {
        self.caps.len()
    }

    pub fn contains(&self, index: u8) -> (r: bool)
        ensures
            r == self@.contains(index),
    {
        let mut j: usize = 0;
        while j < self.caps.len()
            invariant
                j <= self.caps@.len(),
                forall|k: int| 0 <= k < j ==> (#[trigger] self.caps@[k]).index != index,
            decreases self.caps@.len() - j,
        {
            if self.caps[j].index == index {
                return true;
            }
            j += 1;
        }
        false
    }

    /// Adds a capability; one that is there already is not added twice.
    pub fn insert(&mut self, cap: Cap)
        requires
            old(self).wf(),
            cap.wf(),
        ensures
            final(self).wf(),
            final(self)@ == old(self)@.insert(cap.index),
    {
        if !self.contains(cap.index) {
            let ghost before = self.caps@;
            let ghost idx = cap.index;
            self.caps.push(cap);
            assert(self.caps@ == before.push(cap));
            assert forall|x: u8| #[trigger] self@.contains(x) <==> old(self)@.insert(idx).contains(x) by {
                if self@.contains(x) && x != idx {
                    let k = choose|k: int| 0 <= k < self.caps@.len() && (#[trigger] self.caps@[k]).index == x;
                    assert(k < before.len());
                    assert(before[k].index == x);
                }
                if old(self)@.contains(x) {
                    let k = choose|k: int| 0 <= k < before.len() && (#[trigger] before[k]).index == x;
                    assert(self.caps@[k].index == x);
                }
                if x == idx {
                    assert(self.caps@[before.len() as int].index == x);
                }
            }
            assert(self@ =~= old(self)@.insert(idx));
        } else {
            assert(self@ =~= old(self)@.insert(cap.index));
        }
    }

    /// The indices of the capabilities, each once.
    pub fn indices(&self) -> (r: Vec<u8>)
        requires
            self.wf(),
        ensures
            r@.len() == self.caps@.len(),
            forall|j: int| 0 <= j < r@.len() ==> r@[j] == #[trigger] self.caps@[j].index,
            r@.to_set() == self@,
    {
        let mut r: Vec<u8> = Vec::new();
        let mut j: usize = 0;
        while j < self.caps.len()
            invariant
                j <= self.caps@.len(),
                r@.len() == j,
                forall|k: int| 0 <= k < j ==> r@[k] == #[trigger] self.caps@[k].index,
            decreases self.caps@.len() - j,
        {
            r.push(self.caps[j].index);
            j += 1;
        }
        assert forall|x: u8| r@.to_set().contains(x) <==> self@.contains(x) by {
            if r@.to_set().contains(x) {
                let k = choose|k: int| 0 <= k < r@.len() && r@[k] == x;
                assert(self.caps@[k].index == x);
            }
            if self@.contains(x) {
                let k = choose|k: int| 0 <= k < self.caps@.len() && (#[trigger] self.caps@[k]).index == x;
                assert(r@[k] == x);
            }
        }
        assert(r@.to_set() =~= self@);
        r
    }
}

/// A capability name that no capability has.
pub struct CapError {
    pub name: String,
}

impl CapError {
    /// The message that reports the bad name.
    pub fn message(&self) -> (r: String)
        ensures
            r@ == "bad caps "@ + self.name@,
    {
        let m = String::from_str("bad caps ");
        m.concat(self.name.as_str())
    }
}

fn is_flag_char(c: char) -> (r: bool)
    ensures
        r == is_flag_mark(c),
{
    c == '+' || c == '-'
}

/// The index of the first flag mark of `t`, or its length where it has none.
fn flag_start(t: &str) -> (r: usize)
    ensures
        r <= t@.len(),
        name_part(t@) == t@.subrange(0, r as int),
{
    let n = t.unicode_len();
    let mut j: usize = 0;
    while j < n && !is_flag_char(t.get_char(j))
        invariant
            n == t@.len(),
            j <= n,
            forall|k: int| 0 <= k < j ==> !is_flag_mark(#[trigger] t@[k]),
        decreases n - j,
    {
        j += 1;
    }
    proof {
        lemma_name_part(t@, j as int);
    }
    j
}

proof fn lemma_name_part(t: Seq<char>, j: int)
    requires
        0 <= j <= t.len(),
        forall|k: int| 0 <= k < j ==> !is_flag_mark(#[trigger] t[k]),
        j == t.len() || is_flag_mark(t[j]),
    ensures
        name_part(t) == t.subrange(0, j),
    decreases j,
{
    if j == 0 {
        assert(t.subrange(0, 0) =~= Seq::<char>::empty());
    } else {
        let d = t.drop_first();
        assert forall|k: int| 0 <= k < j - 1 implies !is_flag_mark(#[trigger] d[k]) by {
            assert(d[k] == t[k + 1]);
        }
        lemma_name_part(d, j - 1);
        assert(!is_flag_mark(t[0]));
        assert(seq![t[0]] + d.subrange(0, j - 1) =~= t.subrange(0, j));
    }
}

fn is_name_str(s: &str) -> (r: bool)
    ensures
        r == is_name_text(s@),
{
    let n = s.unicode_len();
    if n == 0 {
        return false;
    }
    let mut j: usize = 0;
    while j < n
        invariant
            n == s@.len(),
            j <= n,
            forall|k: int| 0 <= k < j ==> (('A' <= #[trigger] s@[k] && s@[k] <= 'Z') || s@[k] == '_'),
        decreases n - j,
    {
        let c = s.get_char(j);
        if !(('A' <= c && c <= 'Z') || c == '_') {
            return false;
        }
        j += 1;
    }
    true
}

/// Resolves one token: the name before its flag suffix, upper-cased.
fn resolve_token(t: &str) -> (r: Result<Cap, CapError>)
    ensures
        match r {
            Ok(c) => c.wf() && token_cap(t@) == Some(c.index),
            Err(e) => token_cap(t@) is None && e.name@ == name_part(t@),
        },
{
    let j = flag_start(t);
    let name = t.substring_char(0, j);
    let upper = if is_name_str(name) {
        String::from_str(name)
    } else {
        uppercase(name)
    };
    match lookup_capability(upper.as_str()) {
        Some(index) => Ok(Cap { index, name: upper }),
        None => Err(CapError { name: String::from_str(name) }),
    }
}

/// Skips white space at the start of `s[lo..hi]`.
fn skip_space_front(s: &str, lo: usize, hi: usize) -> (r: usize)
    requires
        lo <= hi <= s@.len(),
    ensures
        lo <= r <= hi,
        trim_front(s@.subrange(lo as int, hi as int)) == s@.subrange(r as int, hi as int),
{
    let mut i = lo;
    while i < hi && is_space_char(s.get_char(i))
        invariant
            lo <= i <= hi <= s@.len(),
            trim_front(s@.subrange(lo as int, hi as int)) == trim_front(s@.subrange(i as int, hi as int)),
        decreases hi - i,
    {
        assert(s@.subrange(i as int, hi as int).drop_first() =~= s@.subrange(i + 1, hi as int));
        i += 1;
    }
    i
}

/// Skips white space at the end of `s[lo..hi]`.
fn skip_space_back(s: &str, lo: usize, hi: usize) -> (r: usize)
    requires
        lo <= hi <= s@.len(),
    ensures
        lo <= r <= hi,
        trim_back(s@.subrange(lo as int, hi as int)) == s@.subrange(lo as int, r as int),
{
    let mut i = hi;
    while lo < i && is_space_char(s.get_char(i - 1))
        invariant
            lo <= i <= hi <= s@.len(),
            trim_back(s@.subrange(lo as int, hi as int)) == trim_back(s@.subrange(lo as int, i as int)),
        decreases i - lo,
    {
        assert(s@.subrange(lo as int, i as int).drop_last() =~= s@.subrange(lo as int, i - 1));
        i -= 1;
    }
    i
}

/// Skips the `=` signs at the start of `s[lo..hi]`.
fn skip_assign(s: &str, lo: usize, hi: usize) -> (r: usize)
    requires
        lo <= hi <= s@.len(),
    ensures
        lo <= r <= hi,
        strip_assign(s@.subrange(lo as int, hi as int)) == s@.subrange(r as int, hi as int),
{
    let mut i = lo;
    while i < hi && s.get_char(i) == '='
        invariant
            lo <= i <= hi <= s@.len(),
            strip_assign(s@.subrange(lo as int, hi as int)) == strip_assign(s@.subrange(i as int, hi as int)),
        decreases hi - i,
    {
        assert(s@.subrange(i as int, hi as int).drop_first() =~= s@.subrange(i + 1, hi as int));
        i += 1;
    }
    i
}

/// The bounds of `trim(s[lo..hi])`.
fn trim_range(s: &str, lo: usize, hi: usize) -> (r: (usize, usize))
    requires
        lo <= hi <= s@.len(),
    ensures
        lo <= r.0 <= r.1 <= hi,
        trim(s@.subrange(lo as int, hi as int)) == s@.subrange(r.0 as int, r.1 as int),
{
    let a = skip_space_front(s, lo, hi);
    let b = skip_space_back(s, a, hi);
    (a, b)
}

/// The meaning of a step of the token scan: what the tokens so far name.
pub open spec fn scan_state(set: Set<u8>, err: Option<Seq<char>>) -> Result<Set<u8>, Seq<char>> {
    match err {
        Some(e) => Err(e),
        None => Ok(set),
    }
}

/// Takes in one field of the list: an empty one is skipped, a token is
/// resolved unless an earlier one failed.
fn take_field(
    s: &str,
    start: usize,
    end: usize,
    set: &mut CapabilitySet,
    err: &mut Option<CapError>,
    Ghost(done): Ghost<Seq<Seq<char>>>,
)
    requires
        start <= end <= s@.len(),
        old(set).wf(),
        resolve_all(nonempty(done)) == scan_state(old(set)@, match *old(err) { Some(e) => Some(e.name@), None => None }),
    ensures
        final(set).wf(),
        resolve_all(nonempty(done.push(s@.subrange(start as int, end as int)))) == scan_state(
            final(set)@,
            match *final(err) { Some(e) => Some(e.name@), None => None },
        ),
{
    let ghost t = s@.subrange(start as int, end as int);
    assert(done.push(t).drop_last() =~= done);
    if start < end {
        assert(nonempty(done.push(t)).drop_last() =~= nonempty(done));
        if err.is_none() {
            let tok = s.substring_char(start, end);
            match resolve_token(tok) {
                Ok(cap) => set.insert(cap),
                Err(e) => *err = Some(e),
            }
        }
    }
}

/// Parses a capability-list text. White space and a leading `=` around the
/// list are ignored; tokens are split at white space and commas; each loses
/// the flag suffix that a `+` or `-` starts and is upper-cased before it is
/// looked up. Text that holds no list gives `None`, which is not the empty
/// set; the first token that names no capability gives its name as the error.
pub fn parse_caps(s: &str) -> (r: Result<Option<CapabilitySet>, CapError>)
    ensures
        match r {
            Ok(None) => parse_spec(s@) == Ok::<Option<Set<u8>>, Seq<char>>(None),
            Ok(Some(set)) => set.wf() && parse_spec(s@) == Ok::<Option<Set<u8>>, Seq<char>>(Some(set@)),
            Err(e) => parse_spec(s@) == Err::<Option<Set<u8>>, Seq<char>>(e.name@),
        },
{
    let n = s.unicode_len();
    assert(s@.subrange(0, n as int) =~= s@);
    let (a, b) = trim_range(s, 0, n);
    let c = skip_assign(s, a, b);
    let (lo, hi) = trim_range(s, c, b);
    if lo == hi {
        return Ok(None);
    }
    let mut set = CapabilitySet::new();
    let mut err: Option<CapError> = None;
    let mut start = lo;
    let mut i = lo;
    let ghost mut done: Seq<Seq<char>> = seq![];
    assert(s@.subrange(lo as int, lo as int) =~= Seq::<char>::empty());
    while i < hi
        invariant
            lo <= start <= i <= hi <= s@.len(),
            fields(s@.subrange(lo as int, i as int)) == done.push(s@.subrange(start as int, i as int)),
            set.wf(),
            resolve_all(nonempty(done)) == scan_state(set@, match err { Some(e) => Some(e.name@), None => None }),
        decreases hi - i,
    {
        let ch = s.get_char(i);
        assert(s@.subrange(lo as int, i + 1).drop_last() =~= s@.subrange(lo as int, i as int));
        if is_space_char(ch) || ch == ',' {
            take_field(s, start, i, &mut set, &mut err, Ghost(done));
            proof {
                done = done.push(s@.subrange(start as int, i as int));
                assert(s@.subrange(i + 1, i + 1) =~= Seq::<char>::empty());
            }
            start = i + 1;
        } else {
            assert(s@.subrange(start as int, i + 1) =~= s@.subrange(start as int, i as int).push(ch));
        }
        i += 1;
    }
    take_field(s, start, hi, &mut set, &mut err, Ghost(done));
    proof {
        done = done.push(s@.subrange(start as int, hi as int));
    }
    match err {
        Some(e) => Err(e),
        None => Ok(Some(set)),
    }
}

/// The names of a list of capabilities, joined by single spaces.
pub open spec fn join_names(caps: Seq<Cap>) -> Seq<char>
    decreases caps.len(),
{
    if caps.len() == 0 {
        Seq::<char>::empty()
    } else if caps.len() == 1 {
        caps[0].name@
    } else {
        join_names(caps.drop_last()) + seq![' '] + caps.last().name@
    }
}

impl CapabilitySet {
    /// The canonical text of the set: its names, upper case, joined by
    /// single spaces.
    pub fn to_text(&self) -> (r: String)
        ensures
            r@ == join_names(self.caps@),
    {
        let mut r = String::new();
        let mut j: usize = 0;
        while j < self.caps.len()
            invariant
                j <= self.caps@.len(),
                r@ == join_names(self.caps@.take(j as int)),
            decreases self.caps@.len() - j,
        {
            let ghost prev = r@;
            assert(self.caps@.take(j + 1).drop_last() =~= self.caps@.take(j as int));
            assert(self.caps@.take(j + 1).last() == self.caps@[j as int]);
            if j > 0 {
                r.append(" ");
                proof {
                    reveal_strlit(" ");
                }
                assert(r@ =~= prev + seq![' ']);
            }
            r.append(self.caps[j].name.as_str());
            if j == 0 {
                assert(r@ =~= self.caps@[0].name@);
            }
            j += 1;
        }
        assert(self.caps@.take(self.caps@.len() as int) =~= self.caps@);
        r
    }
}

proof fn lemma_trim_front_blank(s: Seq<char>)
    requires
        forall|i: int| 0 <= i < s.len() ==> is_space(#[trigger] s[i]),
    ensures
        trim_front(s).len() == 0,
    decreases s.len(),
{
    if s.len() > 0 {
        let d = s.drop_first();
        assert forall|i: int| 0 <= i < d.len() implies is_space(#[trigger] d[i]) by {
            assert(d[i] == s[i + 1]);
        }
        lemma_trim_front_blank(d);
    }
}

/// Text made only of white space, the empty text included, holds no list:
/// it parses to `None`, not to the empty set.
pub proof fn lemma_blank_text_absent(s: Seq<char>)
    requires
        forall|i: int| 0 <= i < s.len() ==> is_space(#[trigger] s[i]),
    ensures
        parse_spec(s) == Ok::<Option<Set<u8>>, Seq<char>>(None),
{
    lemma_trim_front_blank(s);
    let e = Seq::<char>::empty();
    assert(trim_front(s) =~= e);
    assert(trim(s) =~= e);
    assert(strip_assign(e) == e);
    assert(trim_front(e) == e);
    assert(trim_back(e) == e);
}

/// A flag suffix (`+eip`, `-e`) changes nothing: a name followed by one
/// names the same capability as the name alone, and fails with the same
/// name where it names none.
pub proof fn lemma_flag_suffix_ignored(n: Seq<char>, f: Seq<char>)
    requires
        forall|i: int| 0 <= i < n.len() ==> !is_flag_mark(#[trigger] n[i]),
        f.len() > 0,
        is_flag_mark(f[0]),
    ensures
        name_part(n + f) == name_part(n),
        token_cap(n + f) == token_cap(n),
{
    let t = n + f;
    assert forall|k: int| 0 <= k < n.len() implies !is_flag_mark(#[trigger] t[k]) by {
        assert(t[k] == n[k]);
    }
    assert(t[n.len() as int] == f[0]);
    lemma_name_part(t, n.len() as int);
    lemma_name_part(n, n.len() as int);
    assert(t.subrange(0, n.len() as int) =~= n);
    assert(n.subrange(0, n.len() as int) =~= n);
}

proof fn lemma_fields_word(x: Seq<char>, w: Seq<char>)
    requires
        forall|i: int| 0 <= i < w.len() ==> !is_separator(#[trigger] w[i]),
    ensures
        fields(x + w) == fields(x).update(fields(x).len() - 1, fields(x).last() + w),
    decreases w.len(),
{
    lemma_fields_nonempty(x);
    if w.len() == 0 {
        assert(x + w =~= x);
        assert(fields(x).last() + w =~= fields(x).last());
        assert(fields(x).update(fields(x).len() - 1, fields(x).last()) =~= fields(x));
    } else {
        let v = w.drop_last();
        assert((x + w).drop_last() =~= x + v);
        assert((x + w).last() == w.last());
        lemma_fields_word(x, v);
        lemma_fields_nonempty(x + v);
        assert((fields(x).last() + v).push(w.last()) =~= fields(x).last() + w);
        assert(fields(x + w) =~= fields(x).update(fields(x).len() - 1, fields(x).last() + w));
    }
}

proof fn lemma_fields_nonempty(x: Seq<char>)
    ensures
        fields(x).len() > 0,
    decreases x.len(),
{
    if x.len() > 0 {
        lemma_fields_nonempty(x.drop_last());
    }
}

proof fn lemma_name_chars(n: Seq<char>)
    requires
        is_name_text(n),
    ensures
        forall|i: int| 0 <= i < n.len() ==> !is_separator(#[trigger] n[i]) && !is_flag_mark(n[i]) && !is_space(n[i]) && n[i] != '=',
{
    assert forall|i: int| 0 <= i < n.len() implies !is_separator(#[trigger] n[i]) && !is_flag_mark(n[i]) && !is_space(n[i]) && n[i] != '=' by {
        assert(('A' <= n[i] && n[i] <= 'Z') || n[i] == '_');
    }
}

/// The names of well-formed capabilities.
pub open spec fn names_of(caps: Seq<Cap>) -> Seq<Seq<char>> {
    caps.map_values(|c: Cap| c.name@)
}

pub open spec fn all_wf(caps: Seq<Cap>) -> bool {
    forall|j: int| 0 <= j < caps.len() ==> (#[trigger] caps[j]).wf()
}

proof fn lemma_join_fields(caps: Seq<Cap>)
    requires
        caps.len() > 0,
        all_wf(caps),
    ensures
        fields(join_names(caps)) == names_of(caps),
        join_names(caps).len() > 0,
        is_name_text(seq![join_names(caps)[0]]),
        is_name_text(seq![join_names(caps).last()]),
    decreases caps.len(),
{
    let last = caps.last().name@;
    assert(caps[caps.len() - 1].wf());
    lemma_name_chars(last);
    if caps.len() == 1 {
        lemma_fields_word(Seq::<char>::empty(), last);
        assert(Seq::<char>::empty() + last =~= last);
        assert(fields(last) =~= names_of(caps));
        assert(caps[0].wf());
    } else {
        let p = caps.drop_last();
        assert(all_wf(p)) by {
            assert forall|j: int| 0 <= j < p.len() implies (#[trigger] p[j]).wf() by {
                assert(p[j] == caps[j]);
            }
        }
        lemma_join_fields(p);
        let x = join_names(p) + seq![' '];
        assert(x.drop_last() =~= join_names(p));
        assert(fields(x) == fields(join_names(p)).push(Seq::<char>::empty()));
        lemma_fields_word(x, last);
        assert(Seq::<char>::empty() + last =~= last);
        assert(names_of(p).push(last) =~= names_of(caps));
        assert(fields(join_names(caps)) =~= names_of(caps));
        assert(seq![join_names(caps)[0]] =~= seq![join_names(p)[0]]);
        assert(join_names(caps).last() == last.last());
        assert(is_name_text(seq![last.last()])) by {
            assert(('A' <= last[last.len() - 1] && last[last.len() - 1] <= 'Z') || last[last.len() - 1] == '_');
        }
    }
}

proof fn lemma_resolve_names(caps: Seq<Cap>)
    requires
        all_wf(caps),
    ensures
        nonempty(names_of(caps)) == names_of(caps),
        resolve_all(names_of(caps)) == Ok::<Set<u8>, Seq<char>>(
            Set::new(|x: u8| exists|j: int| 0 <= j < caps.len() && (#[trigger] caps[j]).index == x),
        ),
    decreases caps.len(),
{
    let ns = names_of(caps);
    if caps.len() == 0 {
        assert(Set::new(|x: u8| exists|j: int| 0 <= j < caps.len() && (#[trigger] caps[j]).index == x) =~= Set::<u8>::empty());
    } else {
        let p = caps.drop_last();
        assert(all_wf(p)) by {
            assert forall|j: int| 0 <= j < p.len() implies (#[trigger] p[j]).wf() by {
                assert(p[j] == caps[j]);
            }
        }
        lemma_resolve_names(p);
        assert(ns.drop_last() =~= names_of(p));
        let c = caps.last();
        assert(caps[caps.len() - 1].wf());
        lemma_name_chars(c.name@);
        lemma_name_part(c.name@, c.name@.len() as int);
        assert(c.name@.subrange(0, c.name@.len() as int) =~= c.name@);
        assert(token_cap(ns.last()) == Some(c.index));
        let before = Set::new(|x: u8| exists|j: int| 0 <= j < p.len() && (#[trigger] p[j]).index == x);
        let after = Set::new(|x: u8| exists|j: int| 0 <= j < caps.len() && (#[trigger] caps[j]).index == x);
        assert forall|x: u8| #[trigger] after.contains(x) <==> before.insert(c.index).contains(x) by {
            if after.contains(x) && x != c.index {
                let j = choose|j: int| 0 <= j < caps.len() && (#[trigger] caps[j]).index == x;
                assert(j < p.len());
                assert(p[j].index == x);
            }
            if before.contains(x) {
                let j = choose|j: int| 0 <= j < p.len() && (#[trigger] p[j]).index == x;
                assert(caps[j].index == x);
            }
            if x == c.index {
                assert(caps[caps.len() - 1].index == x);
            }
        }
        assert(after =~= before.insert(c.index));
    }
}

/// Parsing is idempotent: the canonical text of a set that is not empty
/// parses back to that same set.
pub proof fn lemma_reparse_canonical(set: CapabilitySet)
    requires
        set.wf(),
        set.caps@.len() > 0,
    ensures
        parse_spec(join_names(set.caps@)) == Ok::<Option<Set<u8>>, Seq<char>>(Some(set@)),
{
    let caps = set.caps@;
    let t = join_names(caps);
    lemma_join_fields(caps);
    assert(t[0] == seq![t[0]][0]);
    assert(t.last() == seq![t.last()][0]);
    assert(trim_front(t) == t);
    assert(trim_back(t) == t);
    assert(strip_assign(t) == t);
    assert(clean_text(t) == t);
    lemma_resolve_names(caps);
    assert(set@ =~= Set::new(|x: u8| exists|j: int| 0 <= j < caps.len() && (#[trigger] caps[j]).index == x));
}

proof fn lemma_trim_back_prefix(x: Seq<char>)
    ensures
        trim_back(x).len() <= x.len(),
        trim_back(x) == x.subrange(0, trim_back(x).len() as int),
        x.len() > 0 && !is_space(x[0]) ==> trim_back(x).len() > 0,
        trim_back(x).len() > 0 ==> !is_space(trim_back(x).last()),
    decreases x.len(),
{
    if x.len() > 0 && is_space(x.last()) {
        lemma_trim_back_prefix(x.drop_last());
        let t = trim_back(x.drop_last());
        assert(x.drop_last().subrange(0, t.len() as int) =~= x.subrange(0, t.len() as int));
        if !is_space(x[0]) {
            assert(x.len() > 1);
            assert(x.drop_last()[0] == x[0]);
        }
    } else {
        assert(x.subrange(0, x.len() as int) =~= x);
    }
}

proof fn lemma_trim_back_concat(a: Seq<char>, b: Seq<char>)
    requires
        b.len() > 0,
        !is_space(b[0]),
    ensures
        trim_back(a + b) == a + trim_back(b),
    decreases b.len(),
{
    if is_space(b.last()) {
        let c = b.drop_last();
        assert(b.len() > 1);
        assert(c[0] == b[0]);
        assert((a + b).drop_last() =~= a + c);
        assert((a + b).last() == b.last());
        lemma_trim_back_concat(a, c);
    }
}

/// The legacy assignment `= ` in front of a list changes nothing: the text
/// parses as the list alone does.
pub proof fn lemma_assignment_prefix_ignored(x: Seq<char>)
    requires
        x.len() > 0,
        !is_space(x[0]),
        x[0] != '=',
    ensures
        parse_spec(seq!['=', ' '] + x) == parse_spec(x),
{
    let p = seq!['=', ' '];
    let s = p + x;
    assert(s[0] == '=');
    assert(trim_front(s) == s);
    lemma_trim_back_concat(p, x);
    assert(trim(s) == p + trim_back(x));
    lemma_trim_back_prefix(x);
    let tb = trim_back(x);
    assert(tb[0] == x[0]);
    let u = p + tb;
    let v = seq![' '] + tb;
    assert(u.drop_first() =~= v);
    assert(u[0] == '=');
    assert(v[0] == ' ');
    assert(strip_assign(v) == v);
    assert(strip_assign(u) == v);
    assert(v.drop_first() =~= tb);
    assert(is_space(v[0]));
    assert(trim_front(v) == trim_front(tb));
    assert(trim_front(tb) == tb);
    assert(trim_back(tb) == tb);
    assert(clean_text(s) == tb);
    assert(trim_front(x) == x);
    assert(strip_assign(tb) == tb);
    assert(clean_text(x) == tb);
}

} // verus!
