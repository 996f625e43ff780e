//! Consistency hashes of the CI-144 bridge inputs.

use vstd::prelude::*;
use vstd::string::StringSliceAdditionalSpecFns;
use crate::text::{
    str_eq, views, lines, lines_of, split, split_acc, trim, trim_str, pair_views, first_index,
    lemma_first_index, lemma_first_index_at, lemma_split_first, lemma_split_acc_cur,
    lookup, lookup_value, key_is, free_of, trimmed, lemma_trim_result, lemma_trim_trimmed,
    lemma_split_append_free, lemma_split_pieces_free, strip_cr,
};

verus! {

pub const FNV_OFFSET: u64 = 0xcbf29ce484222325;

pub const FNV_PRIME: u64 = 0x100000001b3;

/// 64-bit FNV-1a of `data`.
pub open spec fn spec_fnv1a(data: Seq<u8>) -> u64
    decreases data.len(),
{
    if data.len() == 0 {
        FNV_OFFSET
    } else {
        (spec_fnv1a(data.drop_last()) ^ (data.last() as u64)).wrapping_mul(FNV_PRIME)
    }
}

/// 64-bit FNV-1a hash of `data`.
pub fn fnv1a_hash(data: &[u8]) -> (r: u64)
    ensures
        r == spec_fnv1a(data@),
{
    let mut hash: u64 = FNV_OFFSET;
    let n = data.len();
    let mut i: usize = 0;
    while i < n
        invariant
            n == data@.len(),
            i <= n,
            hash == spec_fnv1a(data@.take(i as int)),
        decreases n - i,
    {
        proof {
            let t = data@.take(i + 1);
            assert(t.drop_last() =~= data@.take(i as int));
            assert(t.last() == data@[i as int]);
        }
        hash = hash ^ (data[i] as u64);
        hash = hash.wrapping_mul(FNV_PRIME);
        i = i + 1;
    }
    assert(data@.take(n as int) =~= data@);
    hash
}

/// The lower case hexadecimal digit for `d < 16`.
pub open spec fn hex_char(d: int) -> char {
    if 0 <= d < 10 {
        ((48 + d) as u8) as char
    } else {
        ((87 + d) as u8) as char
    }
}

/// The `k` lowest hexadecimal digits of `v`, most significant first, in lower case.
pub open spec fn hex_fixed(v: int, k: nat) -> Seq<char>
    decreases k,
{
    if k == 0 {
        Seq::empty()
    } else {
        hex_fixed(v / 16, (k - 1) as nat).push(hex_char(v % 16))
    }
}

/// The digit of `hex_char`, as a one-character string.
pub fn hex_digit(d: u64) -> (r: &'static str)
    requires
        d < 16,
    ensures
        r@ == seq![hex_char(d as int)],
{
    proof {
        reveal_strlit("0");
        reveal_strlit("1");
        reveal_strlit("2");
        reveal_strlit("3");
        reveal_strlit("4");
        reveal_strlit("5");
        reveal_strlit("6");
        reveal_strlit("7");
        reveal_strlit("8");
        reveal_strlit("9");
        reveal_strlit("a");
        reveal_strlit("b");
        reveal_strlit("c");
        reveal_strlit("d");
        reveal_strlit("e");
        reveal_strlit("f");
    }
    let r = if d == 0 {
        "0"
    } else if d == 1 {
        "1"
    } else if d == 2 {
        "2"
    } else if d == 3 {
        "3"
    } else if d == 4 {
        "4"
    } else if d == 5 {
        "5"
    } else if d == 6 {
        "6"
    } else if d == 7 {
        "7"
    } else if d == 8 {
        "8"
    } else if d == 9 {
        "9"
    } else if d == 10 {
        "a"
    } else if d == 11 {
        "b"
    } else if d == 12 {
        "c"
    } else if d == 13 {
        "d"
    } else if d == 14 {
        "e"
    } else {
        "f"
    };
    assert(r@ =~= seq![hex_char(d as int)]);
    r
}

/// The `k` lowest hexadecimal digits of `v`, zero padded.
pub fn hex_digits(v: u64, k: usize) -> (r: String)
    ensures
        r@ == hex_fixed(v as int, k as nat),
    decreases k,
{
    if k == 0 {
        String::new()
    } else {
        let mut s = hex_digits(v / 16, k - 1);
        s.append(hex_digit(v % 16));
        s
    }
}

/// `{:016x}` of the FNV-1a hash of the bridge inputs: the overlay, the
/// CI-144 configuration (each if present) and the target name, in that order.
pub open spec fn spec_target_hash(interfaces: Option<Seq<u8>>, ci144: Option<Seq<u8>>, target: Seq<u8>) -> Seq<char> {
    let a = match interfaces {
        Some(d) => d,
        None => Seq::empty(),
    };
    let b = match ci144 {
        Some(d) => d,
        None => Seq::empty(),
    };
    hex_fixed(spec_fnv1a(a + b + target) as int, 16)
}

pub open spec fn opt_bytes(o: Option<Vec<u8>>) -> Option<Seq<u8>> {
    match o {
        Some(v) => Some(v@),
        None => None,
    }
}

/// The consistency hash of the bridge inputs (see `spec_target_hash`).
pub fn target_hash(interfaces: Option<Vec<u8>>, ci144: Option<Vec<u8>>, target: &str) -> (r: String)
    ensures
        r@ == spec_target_hash(opt_bytes(interfaces), opt_bytes(ci144), target.spec_bytes()),
{
    let ghost a = match opt_bytes(interfaces) {
        Some(d) => d,
        None => Seq::<u8>::empty(),
    };
    let ghost b = match opt_bytes(ci144) {
        Some(d) => d,
        None => Seq::<u8>::empty(),
    };
    let mut combined: Vec<u8> = match interfaces {
        Some(d) => d,
        None => Vec::new(),
    };
    assert(combined@ =~= a);
    match ci144 {
        Some(d) => {
            let mut d2 = d;
            combined.append(&mut d2);
        },
        None => {},
    }
    assert(combined@ =~= a + b);
    let tb = target.as_bytes();
    let mut j: usize = 0;
    let ghost base = combined@;
    while j < tb.len()
        invariant
            base == a + b,
            j <= tb@.len(),
            tb@ == target.spec_bytes(),
            combined@ == base + tb@.take(j as int),
        decreases tb@.len() - j,
    {
        combined.push(tb[j]);
        assert(combined@ =~= base + tb@.take(j + 1));
        j = j + 1;
    }
    assert(tb@.take(tb@.len() as int) =~= tb@);
    let h = fnv1a_hash(combined.as_slice());
    hex_digits(h, 16)
}

} // verus!

verus! {

/// Records `k = v`, replacing an earlier value of `k` in place.
pub open spec fn upsert(m: Seq<(Seq<char>, Seq<char>)>, k: Seq<char>, v: Seq<char>) -> Seq<(Seq<char>, Seq<char>)> {
    let i = first_index(m, key_is(k));
    if i >= 0 {
        m.update(i, (k, v))
    } else {
        m.push((k, v))
    }
}

/// The `key=value` entry a line holds: exactly one `=`, both sides trimmed.
pub open spec fn hash_line(line: Seq<char>) -> Option<(Seq<char>, Seq<char>)> {
    let parts = split(line, '=');
    if parts.len() == 2 {
        Some((trim(parts[0]), trim(parts[1])))
    } else {
        None
    }
}

/// The target hashes a `lunarast.hash` file records, later lines winning.
pub open spec fn spec_hash_entries(ls: Seq<Seq<char>>) -> Seq<(Seq<char>, Seq<char>)>
    decreases ls.len(),
{
    if ls.len() == 0 {
        Seq::empty()
    } else {
        let prev = spec_hash_entries(ls.drop_last());
        match hash_line(ls.last()) {
            Some(kv) => upsert(prev, kv.0, kv.1),
            None => prev,
        }
    }
}

/// Records `k = v` in the entries (see `upsert`).
pub fn upsert_entry(m: &mut Vec<(String, String)>, k: String, v: String)
    ensures
        pair_views(final(m)@) == upsert(pair_views(old(m)@), k@, v@),
{
    let ghost mv = pair_views(m@);
    let ghost p = key_is(k@);
    proof {
        lemma_first_index(mv, p);
    }
    let n = m.len();
    let mut i: usize = 0;
    while i < n
        invariant
            n == m@.len(),
            m@ == old(m)@,
            mv == pair_views(m@),
            p == key_is(k@),
            i <= n,
            forall|j: int| 0 <= j < i ==> !p(#[trigger] mv[j]),
        decreases n - i,
    {
        assert(mv[i as int] == (m@[i as int].0@, m@[i as int].1@));
        if str_eq(m[i].0.as_str(), k.as_str()) {
            proof {
                assert(p(mv[i as int]));
                lemma_first_index_at(mv, p, i as int);
                assert(upsert(mv, k@, v@) == mv.update(i as int, (k@, v@)));
            }
            let ghost kv = (k@, v@);
            m.set(i, (k, v));
            assert(pair_views(m@) =~= mv.update(i as int, kv));
            return;
        }
        i = i + 1;
    }
    proof {
        lemma_first_index(mv, p);
        if first_index(mv, p) >= 0 {
            assert(!p(mv[first_index(mv, p)]));
        }
    }
    let ghost kv = (k@, v@);
    m.push((k, v));
    assert(pair_views(m@) =~= mv.push(kv));
}

fn parse_hash_line(line: &str) -> (r: Option<(String, String)>)
    ensures
        match r {
            Some(kv) => hash_line(line@) == Some((kv.0@, kv.1@)),
            None => hash_line(line@) is None,
        },
{
    let n = line.unicode_len();
    let mut eqs: usize = 0;
    let mut first: usize = 0;
    let mut i: usize = 0;
    while i < n
        invariant
            n == line@.len(),
            i <= n,
            eqs <= i,
            eqs as int == split_acc(line@.take(i as int), '=').0.len(),
            eqs >= 1 ==> first < i && line@[first as int] == '=' && forall|j: int| 0 <= j < first ==> line@[j] != '=',
            eqs == 0 ==> forall|j: int| 0 <= j < i ==> line@[j] != '=',
            eqs == 1 ==> forall|j: int| first < j < i ==> line@[j] != '=',
        decreases n - i,
    {
        proof {
            let t = line@.take(i + 1);
            assert(t.drop_last() =~= line@.take(i as int));
            assert(t.last() == line@[i as int]);
        }
        if line.get_char(i) == '=' {
            if eqs == 0 {
                first = i;
            }
            eqs = eqs + 1;
        }
        i = i + 1;
    }
    assert(line@.take(n as int) =~= line@);
    if eqs != 1 {
        return None;
    }
    proof {
        lemma_split_first(line@, '=', first as int);
        let rest = line@.skip(first + 1);
        lemma_split_acc_cur(line@, '=', first + 1);
        assert(line@.subrange(first + 1, n as int) =~= rest);
    }
    let kpart = line.substring_char(0, first);
    let vpart = line.substring_char(first + 1, n);
    assert(kpart@ =~= line@.take(first as int));
    assert(vpart@ =~= line@.subrange(first + 1, n as int));
    let key = trim_str(kpart);
    let value = trim_str(vpart);
    Some((String::from_str(key), String::from_str(value)))
}

/// The target hashes recorded in a `lunarast.hash` file (see `spec_hash_entries`).
pub fn parse_hashes(content: &str) -> (r: Vec<(String, String)>)
    ensures
        pair_views(r@) == spec_hash_entries(lines(content@)),
{
    let ls = lines_of(content);
    let ghost lv = views(ls@);
    let mut m: Vec<(String, String)> = Vec::new();
    let n = ls.len();
    let mut i: usize = 0;
    while i < n
        invariant
            n == ls@.len(),
            lv == views(ls@),
            lv == lines(content@),
            i <= n,
            pair_views(m@) == spec_hash_entries(lv.take(i as int)),
        decreases n - i,
    {
        proof {
            let t = lv.take(i + 1);
            assert(t.drop_last() =~= lv.take(i as int));
            assert(t.last() == ls@[i as int]@);
        }
        match parse_hash_line(ls[i].as_str()) {
            Some(kv) => upsert_entry(&mut m, kv.0, kv.1),
            None => {},
        }
        i = i + 1;
    }
    assert(lv.take(n as int) =~= lv);
    m
}

/// `key=value` lines, one per entry, each ending in a newline.
pub open spec fn spec_render_hashes(m: Seq<(Seq<char>, Seq<char>)>) -> Seq<char>
    decreases m.len(),
{
    if m.len() == 0 {
        Seq::empty()
    } else {
        spec_render_hashes(m.drop_last()) + m.last().0 + "="@ + m.last().1 + "\n"@
    }
}

/// The content of a `lunarast.hash` file holding the entries.
pub fn render_hashes(m: &Vec<(String, String)>) -> (r: String)
    ensures
        r@ == spec_render_hashes(pair_views(m@)),
{
    let ghost mv = pair_views(m@);
    let mut out = String::new();
    let n = m.len();
    let mut i: usize = 0;
    while i < n
        invariant
            n == m@.len(),
            mv == pair_views(m@),
            i <= n,
            out@ == spec_render_hashes(mv.take(i as int)),
        decreases n - i,
    {
        proof {
            let t = mv.take(i + 1);
            assert(t.drop_last() =~= mv.take(i as int));
            assert(t.last() == (m@[i as int].0@, m@[i as int].1@));
        }
        out.append(m[i].0.as_str());
        out.append("=");
        out.append(m[i].1.as_str());
        out.append("\n");
        i = i + 1;
    }
    assert(mv.take(n as int) =~= mv);
    out
}

/// The hash file after recording `hash` for `target` in `existing`.
pub fn updated_hash_file(existing: &str, target: &str, hash: &str) -> (r: String)
    ensures
        r@ == spec_render_hashes(upsert(spec_hash_entries(lines(existing@)), target@, hash@)),
{
    let mut m = parse_hashes(existing);
    upsert_entry(&mut m, String::from_str(target), String::from_str(hash));
    render_hashes(&m)
}

/// Whether the stored hash of a target (empty when none is stored) matches
/// the current one.
pub fn bridge_aligned(stored: &Vec<(String, String)>, target: &str, current: &str) -> (r: bool)
    ensures
        r == (or_empty(lookup(pair_views(stored@), target@)) == current@),
{
    match lookup_value(stored, target) {
        Some(s) => str_eq(s.as_str(), current),
        None => {
            let e = current.unicode_len() == 0;
            proof {
                if e {
                    assert(current@ =~= Seq::<char>::empty());
                }
            }
            e
        },
    }
}

pub open spec fn or_empty(o: Option<Seq<char>>) -> Seq<char> {
    match o {
        Some(s) => s,
        None => Seq::empty(),
    }
}

/// The text of the CIB19 bridge program written before the project name.
pub open spec fn bridge_head() -> Seq<char> {
    "// Generated automatically by LunarAST v3.0 from .lunar/ci-144.yml.\n// 100% Deterministic. Do NOT edit manually.\n\nuse tokio::net::TcpStream;\nuse serde::{Serialize, Deserialize};\n\n#[derive(Debug, Serialize, Deserialize)]\npub struct SemanticNode {\n    pub name: String,\n    pub r#type: String,\n    pub description: String,\n}\n\n#[derive(Debug, Serialize, Deserialize)]\npub struct ActionRequest {\n    pub action: String,\n    pub payload: serde_json::Value,\n}\n\n#[tokio::main]\nasync fn main() -> Result<(), Box<dyn std::error::Error>> {\n    println!(\"🚀 Starting Cellrix CIB19 Bridge for project: "@
}

/// The text of the CIB19 bridge program written after the project name.
pub open spec fn bridge_tail() -> Seq<char> {
    " ...\");\n    // Connect to Cellrix and implement CIB19 protocol loop...\n    Ok(())\n}\n"@
}

/// The CIB19 bridge program for a project: a fixed template with the
/// project's name in its start-up message.
pub fn bridge_source(project: &str) -> (r: String)
    ensures
        r@ == bridge_head() + project@ + bridge_tail(),
{
    let mut out = String::from_str("// Generated automatically by LunarAST v3.0 from .lunar/ci-144.yml.\n// 100% Deterministic. Do NOT edit manually.\n\nuse tokio::net::TcpStream;\nuse serde::{Serialize, Deserialize};\n\n#[derive(Debug, Serialize, Deserialize)]\npub struct SemanticNode {\n    pub name: String,\n    pub r#type: String,\n    pub description: String,\n}\n\n#[derive(Debug, Serialize, Deserialize)]\npub struct ActionRequest {\n    pub action: String,\n    pub payload: serde_json::Value,\n}\n\n#[tokio::main]\nasync fn main() -> Result<(), Box<dyn std::error::Error>> {\n    println!(\"🚀 Starting Cellrix CIB19 Bridge for project: ");
    out.append(project);
    out.append(" ...\");\n    // Connect to Cellrix and implement CIB19 protocol loop...\n    Ok(())\n}\n");
    out
}

/// The file the bridge is written to: Rust for `rust`, Python otherwise.
pub fn bridge_file_name(lang: &str) -> (r: &'static str)
    ensures
        r@ == (if lang@ == "rust"@ {
            "cellrix_bridge.rs"@
        } else {
            "cellrix_bridge.py"@
        }),
{
    if str_eq(lang, "rust") {
        "cellrix_bridge.rs"
    } else {
        "cellrix_bridge.py"
    }
}

/// What a choice in the outdated-bridge menu selects.
#[derive(Debug, PartialEq, Eq, Structural, Clone, Copy)]
pub enum CheckChoice {
    Quit,
    Regenerate,
    SelfTest,
    Ignore,
    Invalid,
}

/// The outdated-bridge menu, on the trimmed answer: `q` quits, `1`
/// regenerates, `2` runs the self-test, `3` accepts the current inputs.
pub open spec fn spec_check_choice(input: Seq<char>) -> CheckChoice {
    let t = trim(input);
    if t == "q"@ {
        CheckChoice::Quit
    } else if t == "1"@ {
        CheckChoice::Regenerate
    } else if t == "2"@ {
        CheckChoice::SelfTest
    } else if t == "3"@ {
        CheckChoice::Ignore
    } else {
        CheckChoice::Invalid
    }
}

/// What a choice in the outdated-bridge menu selects (see `spec_check_choice`).
pub fn check_choice(input: &str) -> (r: CheckChoice)
    ensures
        r == spec_check_choice(input@),
{
    let t = trim_str(input);
    if str_eq(t, "q") {
        CheckChoice::Quit
    } else if str_eq(t, "1") {
        CheckChoice::Regenerate
    } else if str_eq(t, "2") {
        CheckChoice::SelfTest
    } else if str_eq(t, "3") {
        CheckChoice::Ignore
    } else {
        CheckChoice::Invalid
    }
}

/// A key or value a hash file holds as it is: no `=`, no line break, no
/// surrounding whitespace.
pub open spec fn clean_text(s: Seq<char>) -> bool {
    free_of(s, '=') && free_of(s, '\n') && trimmed(s)
}

/// Entries a hash file holds as they are: clean keys and values, each key once.
pub open spec fn clean_entries(m: Seq<(Seq<char>, Seq<char>)>) -> bool {
    &&& forall|i: int| #![trigger m[i]] 0 <= i < m.len() ==> clean_text(m[i].0) && clean_text(m[i].1)
    &&& forall|i: int, j: int| #![trigger m[i], m[j]] 0 <= i < j < m.len() ==> m[i].0 != m[j].0
}

/// The line of an entry, without its line ending.
pub open spec fn entry_text(e: (Seq<char>, Seq<char>)) -> Seq<char> {
    e.0 + "="@ + e.1
}

proof fn lemma_render_split(m: Seq<(Seq<char>, Seq<char>)>)
    requires
        forall|i: int| #![trigger m[i]] 0 <= i < m.len() ==> free_of(m[i].0, '\n') && free_of(m[i].1, '\n'),
    ensures
        split_acc(spec_render_hashes(m), '\n') == (m.map_values(|e: (Seq<char>, Seq<char>)| entry_text(e)), Seq::<char>::empty()),
    decreases m.len(),
{
    reveal_strlit("=");
    reveal_strlit("\n");
    if m.len() == 0 {
        assert(m.map_values(|e: (Seq<char>, Seq<char>)| entry_text(e)) =~= Seq::<Seq<char>>::empty());
    } else {
        let m0 = m.drop_last();
        assert forall|i: int| #![trigger m0[i]] 0 <= i < m0.len() implies free_of(m0[i].0, '\n') && free_of(m0[i].1, '\n') by {
            assert(m0[i] == m[i]);
        }
        lemma_render_split(m0);
        let e = m.last();
        assert(free_of(m[m.len() - 1].0, '\n') && free_of(m[m.len() - 1].1, '\n'));
        let line = entry_text(e);
        assert(free_of(line, '\n')) by {
            assert forall|j: int| 0 <= j < line.len() implies line[j] != '\n' by {
                if j < e.0.len() {
                    assert(line[j] == e.0[j]);
                } else if j == e.0.len() {
                    assert(line[j] == '=');
                } else {
                    assert(line[j] == e.1[j - e.0.len() - 1]);
                }
            }
        }
        let r0 = spec_render_hashes(m0);
        lemma_split_append_free(r0, line, '\n');
        let r = spec_render_hashes(m);
        assert(r =~= (r0 + line).push('\n'));
        assert(r.drop_last() =~= r0 + line);
        assert(Seq::<char>::empty() + line =~= line);
        assert(m.map_values(|e: (Seq<char>, Seq<char>)| entry_text(e)) =~= m0.map_values(
            |e: (Seq<char>, Seq<char>)| entry_text(e),
        ).push(line));
    }
}

proof fn lemma_clean_lines_free(m: Seq<(Seq<char>, Seq<char>)>)
    requires
        clean_entries(m),
    ensures
        forall|i: int| #![trigger m[i]] 0 <= i < m.len() ==> free_of(m[i].0, '\n') && free_of(m[i].1, '\n'),
{
    assert forall|i: int| #![trigger m[i]] 0 <= i < m.len() implies free_of(m[i].0, '\n') && free_of(m[i].1, '\n') by {
        let e = m[i];
        assert(clean_text(e.0));
        assert(clean_text(e.1));
        assert(free_of(e.0, '\n'));
        assert(free_of(e.1, '\n'));
    }
}

proof fn lemma_render_lines(m: Seq<(Seq<char>, Seq<char>)>)
    requires
        clean_entries(m),
    ensures
        lines(spec_render_hashes(m)) == m.map_values(|e: (Seq<char>, Seq<char>)| entry_text(e)),
{
    lemma_clean_lines_free(m);
    reveal_strlit("=");
    lemma_render_split(m);
    let d = m.map_values(|e: (Seq<char>, Seq<char>)| entry_text(e));
    let pieces = split(spec_render_hashes(m), '\n');
    assert(pieces == d.push(Seq::<char>::empty()));
    assert(pieces.drop_last() =~= d);
    assert forall|i: int| 0 <= i < d.len() implies #[trigger] strip_cr(d[i]) == d[i] by {
        let e = m[i];
        assert(clean_text(e.0) && clean_text(e.1));
        let line = entry_text(e);
        assert(d[i] == line);
        if e.1.len() > 0 {
            assert(line.last() == e.1.last());
            assert(!crate::text::is_ws(e.1.last()));
        } else {
            assert(line.last() == '=');
        }
    }
    assert(d.map_values(|p: Seq<char>| strip_cr(p)) =~= d);
}

proof fn lemma_hash_line_of(e: (Seq<char>, Seq<char>))
    requires
        clean_text(e.0),
        clean_text(e.1),
    ensures
        hash_line(entry_text(e)) == Some(e),
{
    reveal_strlit("=");
    let k = e.0;
    let v = e.1;
    lemma_split_append_free(Seq::<char>::empty(), k, '=');
    assert(Seq::<char>::empty() + k =~= k);
    assert(Seq::<char>::empty() + k == k);
    let kk = k.push('=');
    assert(kk.drop_last() =~= k);
    lemma_split_append_free(kk, v, '=');
    assert(entry_text(e) =~= kk + v);
    assert(Seq::<char>::empty() + v =~= v);
    let parts = split(entry_text(e), '=');
    assert(parts =~= seq![k, v]);
    lemma_trim_trimmed(k);
    lemma_trim_trimmed(v);
}

proof fn lemma_no_key(m: Seq<(Seq<char>, Seq<char>)>, k: Seq<char>)
    requires
        forall|i: int| #![trigger m[i]] 0 <= i < m.len() ==> m[i].0 != k,
    ensures
        first_index(m, key_is(k)) == -1,
{
    lemma_first_index(m, key_is(k));
    if first_index(m, key_is(k)) >= 0 {
        assert(m[first_index(m, key_is(k))].0 != k);
    }
}

proof fn lemma_entries_of_lines(m: Seq<(Seq<char>, Seq<char>)>)
    requires
        clean_entries(m),
    ensures
        spec_hash_entries(m.map_values(|e: (Seq<char>, Seq<char>)| entry_text(e))) == m,
    decreases m.len(),
{
    let ls = m.map_values(|e: (Seq<char>, Seq<char>)| entry_text(e));
    if m.len() == 0 {
        assert(ls =~= Seq::<Seq<char>>::empty());
        assert(m =~= Seq::<(Seq<char>, Seq<char>)>::empty());
    } else {
        let m0 = m.drop_last();
        assert(clean_entries(m0)) by {
            assert forall|i: int| #![trigger m0[i]] 0 <= i < m0.len() implies clean_text(m0[i].0) && clean_text(m0[i].1) by {
                assert(m0[i] == m[i]);
            }
            assert forall|i: int, j: int| #![trigger m0[i], m0[j]] 0 <= i < j < m0.len() implies m0[i].0 != m0[j].0 by {
                assert(m0[i] == m[i] && m0[j] == m[j]);
            }
        }
        lemma_entries_of_lines(m0);
        assert(ls.drop_last() =~= m0.map_values(|e: (Seq<char>, Seq<char>)| entry_text(e)));
        let e = m.last();
        assert(clean_text(m[m.len() - 1].0) && clean_text(m[m.len() - 1].1));
        lemma_hash_line_of(e);
        assert(ls.last() == entry_text(e));
        assert forall|i: int| #![trigger m0[i]] 0 <= i < m0.len() implies m0[i].0 != e.0 by {
            assert(m0[i] == m[i]);
            assert(m[i].0 != m[m.len() - 1].0);
        }
        lemma_no_key(m0, e.0);
        assert(m0.push(e) =~= m);
    }
}

proof fn lemma_same_first_key(a: Seq<(Seq<char>, Seq<char>)>, b: Seq<(Seq<char>, Seq<char>)>, k: Seq<char>)
    requires
        a.len() == b.len(),
        forall|i: int| #![trigger a[i]] 0 <= i < a.len() ==> a[i].0 == b[i].0,
    ensures
        first_index(a, key_is(k)) == first_index(b, key_is(k)),
{
    lemma_first_index(a, key_is(k));
    lemma_first_index(b, key_is(k));
    let i = first_index(a, key_is(k));
    if i >= 0 {
        assert forall|j: int| 0 <= j < i implies !key_is(k)(#[trigger] b[j]) by {
            assert(!key_is(k)(a[j]));
        }
        assert(key_is(k)(b[i]));
        lemma_first_index_at(b, key_is(k), i);
    } else {
        let jb = first_index(b, key_is(k));
        if jb >= 0 {
            assert(key_is(k)(a[jb]));
        }
    }
}

/// Recording keeps entries clean; afterwards the key reads back its value
/// and every other key reads what it read before.
proof fn lemma_upsert_reads(m: Seq<(Seq<char>, Seq<char>)>, k: Seq<char>, v: Seq<char>, other: Seq<char>)
    requires
        clean_entries(m),
        clean_text(k),
        clean_text(v),
    ensures
        clean_entries(upsert(m, k, v)),
        lookup(upsert(m, k, v), k) == Some(v),
        other != k ==> lookup(upsert(m, k, v), other) == lookup(m, other),
{
    lemma_first_index(m, key_is(k));
    let i = first_index(m, key_is(k));
    let u = upsert(m, k, v);
    if i >= 0 {
        assert(u == m.update(i, (k, v)));
        assert forall|j: int| #![trigger u[j]] 0 <= j < u.len() implies u[j].0 == m[j].0 by {}
        assert forall|j: int| #![trigger u[j]] 0 <= j < u.len() implies clean_text(u[j].0) && clean_text(u[j].1) by {
            if j != i {
                assert(u[j] == m[j]);
            }
        }
        assert forall|a: int, b: int| #![trigger u[a], u[b]] 0 <= a < b < u.len() implies u[a].0 != u[b].0 by {
            assert(u[a].0 == m[a].0 && u[b].0 == m[b].0);
        }
        lemma_same_first_key(u, m, k);
        lemma_same_first_key(u, m, other);
        if other != k {
            let jo = first_index(m, key_is(other));
            if jo >= 0 {
                lemma_first_index(m, key_is(other));
                assert(jo != i);
                assert(u[jo] == m[jo]);
            }
        }
    } else {
        assert(u == m.push((k, v)));
        assert forall|j: int| #![trigger m[j]] 0 <= j < m.len() implies m[j].0 != k by {
            assert(!key_is(k)(m[j]));
        }
        assert forall|j: int| #![trigger u[j]] 0 <= j < u.len() implies clean_text(u[j].0) && clean_text(u[j].1) by {
            if j < m.len() {
                assert(u[j] == m[j]);
            }
        }
        assert forall|a: int, b: int| #![trigger u[a], u[b]] 0 <= a < b < u.len() implies u[a].0 != u[b].0 by {
            assert(u[a] == m[a]);
            if b < m.len() {
                assert(u[b] == m[b]);
            }
        }
        assert forall|j: int| 0 <= j < m.len() implies !key_is(k)(#[trigger] u[j]) by {
            assert(u[j] == m[j]);
        }
        lemma_first_index_at(u, key_is(k), m.len() as int);
        if other != k {
            lemma_first_index(m, key_is(other));
            let jo = first_index(m, key_is(other));
            if jo >= 0 {
                assert forall|j: int| 0 <= j < jo implies !key_is(other)(#[trigger] u[j]) by {
                    assert(u[j] == m[j]);
                }
                assert(u[jo] == m[jo]);
                lemma_first_index_at(u, key_is(other), jo);
            } else {
                assert forall|j: int| 0 <= j < u.len() implies !key_is(other)(#[trigger] u[j]) by {
                    if j < m.len() {
                        assert(u[j] == m[j]);
                    }
                }
                lemma_first_index(u, key_is(other));
                if first_index(u, key_is(other)) >= 0 {
                    assert(!key_is(other)(u[first_index(u, key_is(other))]));
                }
            }
        }
    }
}

proof fn lemma_parsed_clean(ls: Seq<Seq<char>>)
    requires
        forall|i: int| 0 <= i < ls.len() ==> free_of(#[trigger] ls[i], '\n'),
    ensures
        clean_entries(spec_hash_entries(ls)),
    decreases ls.len(),
{
    if ls.len() > 0 {
        let l0 = ls.drop_last();
        assert forall|i: int| 0 <= i < l0.len() implies free_of(#[trigger] l0[i], '\n') by {
            assert(l0[i] == ls[i]);
        }
        lemma_parsed_clean(l0);
        let l = ls.last();
        assert(free_of(ls[ls.len() - 1], '\n'));
        match hash_line(l) {
            Some(kv) => {
                let parts = split(l, '=');
                lemma_split_pieces_free(l, '=', '=');
                lemma_split_pieces_free(l, '=', '\n');
                let d = split_acc(l, '=').0;
                assert(parts[0] == d[0]);
                assert(parts[1] == split_acc(l, '=').1);
                assert(free_of(d[0], '=') && free_of(d[0], '\n'));
                lemma_trim_result(parts[0], '=');
                lemma_trim_result(parts[0], '\n');
                lemma_trim_result(parts[1], '=');
                lemma_trim_result(parts[1], '\n');
                lemma_upsert_reads(spec_hash_entries(l0), kv.0, kv.1, kv.0);
            },
            None => {},
        }
    }
}

proof fn lemma_lines_free(s: Seq<char>)
    ensures
        forall|i: int| 0 <= i < lines(s).len() ==> free_of(#[trigger] lines(s)[i], '\n'),
{
    lemma_split_pieces_free(s, '\n', '\n');
    let pieces = split(s, '\n');
    let d = split_acc(s, '\n').0;
    assert(pieces.drop_last() =~= d);
    assert forall|i: int| 0 <= i < lines(s).len() implies free_of(#[trigger] lines(s)[i], '\n') by {
        if i < d.len() {
            let p = d[i];
            assert(lines(s)[i] == strip_cr(p));
            assert(free_of(p, '\n'));
            if p.len() > 0 && p.last() == '\r' {
                assert forall|j: int| 0 <= j < p.drop_last().len() implies p.drop_last()[j] != '\n' by {
                    assert(p.drop_last()[j] == p[j]);
                }
            }
        } else {
            assert(lines(s)[i] == pieces.last());
        }
    }
}

/// Recording hash `hash` for `target` in a hash file (as `updated_hash_file`
/// does) and reading the file back (as `parse_hashes` does) gives `hash`
/// for `target` and, for every other target, what the file gave before.
/// Target and hash hold no `=`, no line break and no surrounding whitespace.
pub proof fn law_recorded_hash_reads_back(existing: Seq<char>, target: Seq<char>, hash: Seq<char>, other: Seq<char>)
    requires
        clean_text(target),
        clean_text(hash),
    ensures
        lookup(
            spec_hash_entries(lines(spec_render_hashes(upsert(spec_hash_entries(lines(existing)), target, hash)))),
            target,
        ) == Some(hash),
        other != target ==> lookup(
            spec_hash_entries(lines(spec_render_hashes(upsert(spec_hash_entries(lines(existing)), target, hash)))),
            other,
        ) == lookup(spec_hash_entries(lines(existing)), other),
{
    let m = spec_hash_entries(lines(existing));
    lemma_lines_free(existing);
    lemma_parsed_clean(lines(existing));
    lemma_upsert_reads(m, target, hash, other);
    let m2 = upsert(m, target, hash);
    lemma_render_lines(m2);
    lemma_entries_of_lines(m2);
}

/// A lower case hexadecimal digit.
pub open spec fn is_lower_hex(c: char) -> bool {
    ('0' <= c && c <= '9') || ('a' <= c && c <= 'f')
}

proof fn lemma_hex_fixed_digits(v: int, k: nat)
    requires
        v >= 0,
    ensures
        hex_fixed(v, k).len() == k,
        forall|i: int| 0 <= i < k ==> #[trigger] is_lower_hex(hex_fixed(v, k)[i]),
    decreases k,
{
    if k > 0 {
        lemma_hex_fixed_digits(v / 16, (k - 1) as nat);
        let d = v % 16;
        assert(0 <= d < 16);
        assert(is_lower_hex(hex_char(d)));
        let s = hex_fixed(v, k);
        assert forall|i: int| 0 <= i < k implies #[trigger] is_lower_hex(s[i]) by {
            if i < k - 1 {
                assert(s[i] == hex_fixed(v / 16, (k - 1) as nat)[i]);
            }
        }
    }
}

/// Law: a consistency hash is always sixteen lower case hexadecimal digits.
pub proof fn law_target_hash_is_sixteen_hex_digits(interfaces: Option<Seq<u8>>, ci144: Option<Seq<u8>>, target: Seq<u8>)
    ensures
        spec_target_hash(interfaces, ci144, target).len() == 16,
        forall|i: int| 0 <= i < 16 ==> #[trigger] is_lower_hex(spec_target_hash(interfaces, ci144, target)[i]),
{
    let a = match interfaces {
        Some(d) => d,
        None => Seq::empty(),
    };
    let b = match ci144 {
        Some(d) => d,
        None => Seq::empty(),
    };
    lemma_hex_fixed_digits(spec_fnv1a(a + b + target) as int, 16);
}

} // verus!
