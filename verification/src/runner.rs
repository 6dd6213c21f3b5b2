//! The model runner: its command line, the inputs that it makes up, and what it looks for.

use crate::decimal::{parse_signed, parse_unsigned, signed_of, unsigned_of};
use crate::host_ops::{INT32, INT64, INT8, UINT8};
use crate::names::NameMap;
use crate::text;
use crate::text::texts;
use vstd::prelude::*;
use vstd::string::StrSliceExecFns;

verus! {

// --- the command line -------------------------------------------------------------------

/// What the command line asks for. Tolerances stay the texts that were given.
#[derive(Debug, PartialEq)]
pub struct Args {
    pub model: String,
    /// Sizes for dimensions that a model leaves open, by name.
    pub dims: NameMap<i64>,
    pub iters: usize,
    /// Differences up to this do not count.
    pub tol: Option<String>,
    /// Differences up to this part of the reference do not count.
    pub rtol: Option<String>,
    /// How many elements that differ are shown for each output.
    pub dump: usize,
    /// The second session is one on the CPU, too.
    pub self_check: bool,
    /// Neither session optimizes its graph.
    pub no_opt: bool,
    pub seed: u64,
    pub mem_pattern: bool,
    /// Where known inputs and outputs are.
    pub reference: Option<String>,
}

#[verifier::ext_equal]
pub struct ArgsView {
    pub model: Seq<char>,
    pub dims: Map<Seq<char>, i64>,
    pub iters: int,
    pub tol: Option<Seq<char>>,
    pub rtol: Option<Seq<char>>,
    pub dump: int,
    pub self_check: bool,
    pub no_opt: bool,
    pub seed: int,
    pub mem_pattern: bool,
    pub reference: Option<Seq<char>>,
}

pub open spec fn optional_text(s: Option<String>) -> Option<Seq<char>> {
    match s {
        Some(t) => Some(t@),
        None => None,
    }
}

impl View for Args {
    type V = ArgsView;

    open spec fn view(&self) -> ArgsView {
        ArgsView {
            model: self.model@,
            dims: self.dims.map(),
            iters: self.iters as int,
            tol: optional_text(self.tol),
            rtol: optional_text(self.rtol),
            dump: self.dump as int,
            self_check: self.self_check,
            no_opt: self.no_opt,
            seed: self.seed as int,
            mem_pattern: self.mem_pattern,
            reference: optional_text(self.reference),
        }
    }
}

/// What is wrong with a command line, and with which of its words.
#[derive(Debug, Clone, Copy, PartialEq, Eq, Structural)]
pub enum Fault {
    /// No model is named.
    NoModel,
    /// This flag needs a value.
    NoValue(usize),
    /// The value of this flag has to be a name and a number.
    NoEquals(usize),
    /// The value of this flag is no number that fits.
    BadNumber(usize),
    UnknownFlag(usize),
}

/// What a command line with a model alone asks for.
pub open spec fn defaults(model: Seq<char>) -> ArgsView {
    ArgsView {
        model,
        dims: Map::empty(),
        iters: 1,
        tol: None,
        rtol: None,
        dump: 0,
        self_check: false,
        no_opt: false,
        seed: 42,
        mem_pattern: true,
        reference: None,
    }
}

/// Where the first `=` is, or the length.
pub open spec fn equals_at(s: Seq<char>) -> int
    decreases s.len(),
{
    if s.len() == 0 || s[0] == '=' {
        0
    } else {
        1 + equals_at(s.drop_first())
    }
}

/// What a flag with its value adds; `i` is the index of the flag.
pub open spec fn with_value(a: ArgsView, i: int, flag: Seq<char>, value: Seq<char>) -> Result<
    ArgsView,
    Fault,
> {
    let bad = Err(Fault::BadNumber(i as usize));
    if flag == "--dim"@ {
        let p = equals_at(value);
        if p >= value.len() {
            Err(Fault::NoEquals(i as usize))
        } else {
            match signed_of(value.skip(p + 1)) {
                Some(n) => Ok(ArgsView { dims: a.dims.insert(value.take(p), n as i64), ..a }),
                None => bad,
            }
        }
    } else if flag == "--iters"@ {
        match unsigned_of(value, usize::MAX as nat) {
            Some(n) => Ok(ArgsView { iters: if n == 0 { 1 } else { n as int }, ..a }),
            None => bad,
        }
    } else if flag == "--tol"@ {
        Ok(ArgsView { tol: Some(value), ..a })
    } else if flag == "--rtol"@ {
        Ok(ArgsView { rtol: Some(value), ..a })
    } else if flag == "--dump"@ {
        match unsigned_of(value, usize::MAX as nat) {
            Some(n) => Ok(ArgsView { dump: n as int, ..a }),
            None => bad,
        }
    } else if flag == "--seed"@ {
        match unsigned_of(value, u64::MAX as nat) {
            Some(n) => Ok(ArgsView { seed: n as int, ..a }),
            None => bad,
        }
    } else if flag == "--reference"@ {
        Ok(ArgsView { reference: Some(value), ..a })
    } else {
        Err(Fault::UnknownFlag(i as usize))
    }
}

/// What a flag without a value adds.
pub open spec fn with_flag(a: ArgsView, flag: Seq<char>) -> Option<ArgsView> {
    if flag == "--no-mem-pattern"@ {
        Some(ArgsView { mem_pattern: false, ..a })
    } else if flag == "--self-check"@ {
        Some(ArgsView { self_check: true, ..a })
    } else if flag == "--no-opt"@ {
        Some(ArgsView { no_opt: true, ..a })
    } else {
        None
    }
}

/// What the words from `i` on add. A later flag overrides an earlier one.
pub open spec fn args_from(a: ArgsView, words: Seq<Seq<char>>, i: int) -> Result<ArgsView, Fault>
    decreases words.len() - i,
{
    if i < 0 || i >= words.len() {
        Ok(a)
    } else {
        match with_flag(a, words[i]) {
            Some(b) => args_from(b, words, i + 1),
            None => if i + 1 >= words.len() {
                Err(Fault::NoValue(i as usize))
            } else {
                match with_value(a, i, words[i], words[i + 1]) {
                    Ok(b) => args_from(b, words, i + 2),
                    Err(f) => Err(f),
                }
            },
        }
    }
}

/// What a command line asks for: the model, then flags.
pub open spec fn args_of(words: Seq<Seq<char>>) -> Result<ArgsView, Fault> {
    if words.len() == 0 {
        Err(Fault::NoModel)
    } else {
        args_from(defaults(words[0]), words, 1)
    }
}

proof fn lemma_equals(s: Seq<char>, i: int)
    requires
        0 <= i <= s.len(),
        forall|k: int| 0 <= k < i ==> #[trigger] s[k] != '=',
        i < s.len() ==> s[i] == '=',
    ensures
        equals_at(s) == i,
    decreases i,
{
    if i > 0 {
        assert forall|k: int| 0 <= k < i - 1 implies #[trigger] s.drop_first()[k] != '=' by {
            assert(s[k + 1] != '=');
        }
        lemma_equals(s.drop_first(), i - 1);
    }
}

fn find_equals(s: &str) -> (r: usize)
    ensures
        r == equals_at(s@),
        r <= s@.len(),
{
    let n: usize = s.unicode_len();
    let mut i: usize = 0;
    while i < n
        invariant
            i <= n,
            n == s@.len(),
            forall|k: int| 0 <= k < i ==> #[trigger] s@[k] != '=',
        decreases n - i,
    {
        if s.get_char(i) == '=' {
            proof {
                lemma_equals(s@, i as int);
            }
            return i;
        }
        i += 1;
    }
    proof {
        lemma_equals(s@, n as int);
    }
    n
}

fn parse_size(s: &str) -> (r: Option<usize>)
    ensures
        match r {
            Some(v) => unsigned_of(s@, usize::MAX as nat) == Some(v as nat),
            None => unsigned_of(s@, usize::MAX as nat) is None,
        },
{
    match parse_unsigned(s, usize::MAX as u64) {
        Some(v) => Some(v as usize),
        None => None,
    }
}

fn set_value(a: &mut Args, i: usize, flag: &str, value: &str) -> (r: Result<(), Fault>)
    requires
        old(a).dims.wf(),
    ensures
        final(a).dims.wf(),
        match (r, with_value(old(a)@, i as int, flag@, value@)) {
            (Ok(_), Ok(v)) => final(a)@ == v,
            (Err(f), Err(g)) => f == g,
            _ => false,
        },
{
    if text::same(flag, "--dim") {
        let p: usize = find_equals(value);
        let n: usize = value.unicode_len();
        if p >= n {
            return Err(Fault::NoEquals(i));
        }
        let name = value.substring_char(0, p);
        let number = value.substring_char(p + 1, n);
        assert(name@ =~= value@.take(p as int));
        assert(number@ =~= value@.skip(p + 1));
        match parse_signed(number) {
            Some(v) => {
                a.dims.insert(text::owned(name), v);
                Ok(())
            },
            None => Err(Fault::BadNumber(i)),
        }
    } else if text::same(flag, "--iters") {
        match parse_size(value) {
            Some(v) => {
                a.iters = if v == 0 {
                    1
                } else {
                    v
                };
                Ok(())
            },
            None => Err(Fault::BadNumber(i)),
        }
    } else if text::same(flag, "--tol") {
        a.tol = Some(text::owned(value));
        Ok(())
    } else if text::same(flag, "--rtol") {
        a.rtol = Some(text::owned(value));
        Ok(())
    } else if text::same(flag, "--dump") {
        match parse_size(value) {
            Some(v) => {
                a.dump = v;
                Ok(())
            },
            None => Err(Fault::BadNumber(i)),
        }
    } else if text::same(flag, "--seed") {
        match parse_unsigned(value, u64::MAX) {
            Some(v) => {
                a.seed = v;
                Ok(())
            },
            None => Err(Fault::BadNumber(i)),
        }
    } else if text::same(flag, "--reference") {
        a.reference = Some(text::owned(value));
        Ok(())
    } else {
        Err(Fault::UnknownFlag(i))
    }
}

fn set_flag(a: &mut Args, flag: &str) -> (r: bool)
    ensures
        final(a).dims == old(a).dims,
        match with_flag(old(a)@, flag@) {
            Some(v) => r && final(a)@ == v,
            None => !r && final(a)@ == old(a)@,
        },
{
    if text::same(flag, "--no-mem-pattern") {
        a.mem_pattern = false;
        true
    } else if text::same(flag, "--self-check") {
        a.self_check = true;
        true
    } else if text::same(flag, "--no-opt") {
        a.no_opt = true;
        true
    } else {
        false
    }
}

/// What a command line asks for.
pub fn parse_args(words: &Vec<String>) -> (r: Result<Args, Fault>)
    ensures
        match (r, args_of(texts(words@))) {
            (Ok(a), Ok(v)) => a@ == v && a.dims.wf(),
            (Err(f), Err(g)) => f == g,
            _ => false,
        },
{
    let n: usize = words.len();
    if n == 0 {
        return Err(Fault::NoModel);
    }
    let ghost all = texts(words@);
    let mut a = Args {
        model: words[0].clone(),
        dims: NameMap::new(),
        iters: 1,
        tol: None,
        rtol: None,
        dump: 0,
        self_check: false,
        no_opt: false,
        seed: 42,
        mem_pattern: true,
        reference: None,
    };
    assert(all[0] == words@[0]@);
    assert(a@ =~= defaults(all[0]));
    let mut i: usize = 1;
    while i < n
        invariant
            1 <= i,
            n == words@.len(),
            all == texts(words@),
            a.dims.wf(),
            args_of(all) == args_from(a@, all, i as int),
        decreases n - i,
    {
        assert(all[i as int] == words@[i as int]@);
        if set_flag(&mut a, words[i].as_str()) {
            i += 1;
        } else {
            if i + 1 >= n {
                return Err(Fault::NoValue(i));
            }
            assert(all[i + 1] == words@[i + 1]@);
            match set_value(&mut a, i, words[i].as_str(), words[i + 1].as_str()) {
                Ok(_) => {},
                Err(f) => {
                    return Err(f);
                },
            }
            i = if i <= n - 2 {
                i + 2
            } else {
                n
            };
        }
    }
    Ok(a)
}

// --- the plugin -------------------------------------------------------------------------

/// The name of the plugin's library.
pub open spec fn plugin_name_of(windows: bool) -> Seq<char> {
    if windows {
        "onnxruntime_ep_vulkan.dll"@
    } else {
        "libonnxruntime_ep_vulkan.so"@
    }
}

/// Whether a path ends where a name can follow: after a separator, or at its start.
pub open spec fn open_ended(path: Seq<char>, windows: bool) -> bool {
    path.len() == 0 || path.last() == '/' || (windows && path.last() == '\\')
}

/// The path of `name` in the directory `dir`.
pub open spec fn path_in(dir: Seq<char>, name: Seq<char>, windows: bool) -> Seq<char> {
    if open_ended(dir, windows) {
        dir + name
    } else if windows {
        dir + "\\"@ + name
    } else {
        dir + "/"@ + name
    }
}

/// The name of the plugin's library on this kind of system.
pub fn plugin_name(windows: bool) -> (r: String)
    ensures
        r@ == plugin_name_of(windows),
{
    if windows {
        text::owned("onnxruntime_ep_vulkan.dll")
    } else {
        text::owned("libonnxruntime_ep_vulkan.so")
    }
}

/// Where the plugin is: at the path that is given, else in the directory that the program
/// is in, else wherever the system finds its name.
pub fn plugin_path(given: Option<String>, beside: Option<String>, windows: bool) -> (r: String)
    ensures
        r@ == match (given, beside) {
            (Some(path), _) => path@,
            (None, Some(dir)) => path_in(dir@, plugin_name_of(windows), windows),
            (None, None) => plugin_name_of(windows),
        },
{
    match given {
        Some(path) => path,
        None => {
            let name = plugin_name(windows);
            match beside {
                Some(dir) => {
                    let n: usize = dir.as_str().unicode_len();
                    let whole: bool = n == 0 || dir.as_str().get_char(n - 1) == '/' || (windows
                        && dir.as_str().get_char(n - 1) == '\\');
                    if whole {
                        text::joined(dir.as_str(), name.as_str())
                    } else {
                        let open = if windows {
                            text::joined(dir.as_str(), "\\")
                        } else {
                            text::joined(dir.as_str(), "/")
                        };
                        text::joined(open.as_str(), name.as_str())
                    }
                },
                None => name,
            }
        },
    }
}

// --- inputs -----------------------------------------------------------------------------

/// Numbers that look random and are the same for the same seed.
pub struct Rng(pub u64);

/// The state that follows a state.
pub open spec fn stepped(state: u64) -> u64 {
    ((state as int * 6364136223846793005 + 1) % 0x1_0000_0000_0000_0000) as u64
}

impl Rng {
    pub fn next_u64(&mut self) -> (r: u64)
        ensures
            r == stepped(old(self).0),
            final(self).0 == r,
    {
        let m: u64 = self.0.wrapping_mul(6364136223846793005);
        self.0 = m.wrapping_add(1);
        proof {
            let a = old(self).0 as int * 6364136223846793005;
            vstd::arithmetic::div_mod::lemma_add_mod_noop(a, 1, 0x1_0000_0000_0000_0000);
        }
        self.0
    }

    /// A number below `limit`, from the upper bits of the state.
    pub fn next_below(&mut self, limit: u64) -> (r: u64)
        requires
            limit > 0,
        ensures
            final(self).0 == stepped(old(self).0),
            r == (stepped(old(self).0) >> 33u64) % limit,
            r < limit,
    {
        (self.next_u64() >> 33u64) % limit
    }
}

/// The states after `k` steps.
pub open spec fn stepped_by(state: u64, k: int) -> u64
    decreases k,
{
    if k <= 0 {
        state
    } else {
        stepped(stepped_by(state, k - 1))
    }
}

/// `n` numbers below `limit`.
pub fn numbers_below(rng: &mut Rng, n: usize, limit: u64) -> (r: Vec<u64>)
    requires
        limit > 0,
    ensures
        final(rng).0 == stepped_by(old(rng).0, n as int),
        r@.len() == n,
        forall|k: int|
            0 <= k < n ==> #[trigger] r@[k] == (stepped_by(old(rng).0, k + 1) >> 33u64) % limit,
{
    let ghost start = rng.0;
    let mut r: Vec<u64> = Vec::new();
    let mut i: usize = 0;
    while i < n
        invariant
            i <= n,
            limit > 0,
            rng.0 == stepped_by(start, i as int),
            r@.len() == i,
            forall|k: int|
                0 <= k < i ==> #[trigger] r@[k] == (stepped_by(start, k + 1) >> 33u64) % limit,
        decreases n - i,
    {
        assert(stepped_by(start, i + 1) == stepped(rng.0));
        r.push(rng.next_below(limit));
        i += 1;
    }
    r
}

/// Below what made-up integers of a type stay. They often serve as indices, so those of the wide
/// types are small.
pub open spec fn limit_of(dtype: i32) -> Option<u64> {
    if dtype == INT64 || dtype == INT32 {
        Some(64)
    } else if dtype == UINT8 || dtype == INT8 {
        Some(256)
    } else {
        None
    }
}

pub fn integer_limit(dtype: i32) -> (r: Option<u64>)
    ensures
        r == limit_of(dtype),
{
    if dtype == INT64 || dtype == INT32 {
        Some(64)
    } else if dtype == UINT8 || dtype == INT8 {
        Some(256)
    } else {
        None
    }
}

/// A dimension of an input: as the model says, or where it leaves it open, as the command line
/// says, else one.
pub open spec fn dimension_of(d: i64, symbol: Seq<char>, dims: Map<Seq<char>, i64>) -> usize {
    if d >= 0 {
        d as usize
    } else if dims.contains_key(symbol) {
        dims[symbol] as usize
    } else {
        1
    }
}

/// The shape of an input.
pub fn input_shape(shape: &[i64], symbols: &Vec<String>, dims: &NameMap<i64>) -> (r: Vec<usize>)
    ensures
        r@.len() == (if shape@.len() <= symbols@.len() {
            shape@.len()
        } else {
            symbols@.len()
        }),
        forall|k: int|
            0 <= k < r@.len() ==> #[trigger] r@[k] == dimension_of(
                shape@[k],
                symbols@[k]@,
                dims.map(),
            ),
{
    let mut r: Vec<usize> = Vec::new();
    let mut i: usize = 0;
    while i < shape.len() && i < symbols.len()
        invariant
            i <= shape@.len(),
            i <= symbols@.len(),
            r@.len() == i,
            forall|k: int|
                0 <= k < i ==> #[trigger] r@[k] == dimension_of(
                    shape@[k],
                    symbols@[k]@,
                    dims.map(),
                ),
        decreases shape@.len() - i,
    {
        let d: i64 = if shape[i] >= 0 {
            shape[i]
        } else {
            match dims.get(symbols[i].as_str()) {
                Some(n) => *n,
                None => 1,
            }
        };
        r.push(#[verifier::truncate] (d as usize));
        i += 1;
    }
    r
}

/// The name that a tensor of the reference goes by: its own, or where it has none, that of the
/// session's value at its position.
pub open spec fn bound_name(name: Seq<char>, names: Seq<Seq<char>>, index: int) -> Option<Seq<char>> {
    if name.len() > 0 {
        Some(name)
    } else if 0 <= index < names.len() {
        Some(names[index])
    } else {
        None
    }
}

pub fn binding_name(name: &str, names: &Vec<String>, index: usize) -> (r: Option<String>)
    ensures
        optional_text(r) == bound_name(name@, texts(names@), index as int),
{
    if !name.is_empty() {
        Some(text::owned(name))
    } else if index < names.len() {
        let own = names[index].clone();
        assert(texts(names@)[index as int] == own@);
        Some(own)
    } else {
        None
    }
}

/// Which of the devices the session uses: the first of the execution provider.
pub fn select_device(names: &Vec<String>, provider: &str) -> (r: Option<usize>)
    ensures
        match r {
            Some(i) => i < names@.len() && names@[i as int]@ == provider@ && forall|k: int|
                0 <= k < i ==> (#[trigger] names@[k])@ != provider@,
            None => forall|k: int| 0 <= k < names@.len() ==> (#[trigger] names@[k])@ != provider@,
        },
{
    let n: usize = names.len();
    let mut i: usize = 0;
    while i < n
        invariant
            i <= n,
            n == names@.len(),
            forall|k: int| 0 <= k < i ==> (#[trigger] names@[k])@ != provider@,
        decreases n - i,
    {
        if text::same(names[i].as_str(), provider) {
            return Some(i);
        }
        i += 1;
    }
    None
}

} // verus!
