//! Cryptographic hashes and the cache keys of tasks.
use crate::strmap::StringMap;
use crate::text::{decimal, decimal_string};
use crate::toastfile::Task;
use vstd::prelude::*;
use vstd::utf8::encode_utf8;

verus! {

/// Bump this to invalidate all existing caches.
pub const CACHE_VERSION: usize = 0;

/// The SHA-256 digest of `data`.
pub uninterp spec fn sha256(data: Seq<u8>) -> Seq<u8>;

/// The SHA-256 digest of `data`, by `sha2::Sha256::digest`: a function of the bytes alone,
/// 32 bytes long.
#[verifier::external_body]
fn sha256_digest(data: &[u8]) -> (res: Vec<u8>)
    ensures
        res@ == sha256(data@),
        res@.len() == 32,
{
    <sha2::Sha256 as sha2::Digest>::digest(data).to_vec()
}

/// The lowercase hexadecimal digit for `d` (`d < 16`).
pub open spec fn hex_digit(d: u8) -> char {
    if d == 0 { '0' } else if d == 1 { '1' } else if d == 2 { '2' } else if d == 3 { '3' }
    else if d == 4 { '4' } else if d == 5 { '5' } else if d == 6 { '6' } else if d == 7 { '7' }
    else if d == 8 { '8' } else if d == 9 { '9' } else if d == 10 { 'a' } else if d == 11 { 'b' }
    else if d == 12 { 'c' } else if d == 13 { 'd' } else if d == 14 { 'e' } else { 'f' }
}

/// The lowercase hexadecimal encoding of `b`, two digits per byte.
pub open spec fn hex_lower(b: Seq<u8>) -> Seq<char>
    decreases b.len(),
{
    if b.len() == 0 {
        Seq::empty()
    } else {
        hex_lower(b.drop_last()) + seq![hex_digit(b.last() / 16), hex_digit(b.last() % 16)]
    }
}

/// Encodes bytes as lowercase hexadecimal with `hex::encode`: two digits per byte, high
/// nibble first, from the table `0123456789abcdef`.
#[verifier::external_body]
fn hex_encode(data: &[u8]) -> (res: String)
    ensures
        res@ == hex_lower(data@),
{
    hex::encode(data)
}

/// The 32 bytes of the SHA-256 digest of `data`.
pub open spec fn digest(data: Seq<u8>) -> Seq<u8> {
    Seq::new(32, |i: int| sha256(data)[i])
}

/// The hash of some bytes: the hexadecimal encoding of their SHA-256 digest.
pub open spec fn spec_hash(data: Seq<u8>) -> Seq<char> {
    hex_lower(digest(data))
}

/// The hash of a string: the hash of its UTF-8 encoding.
pub open spec fn hash_str(s: Seq<char>) -> Seq<char> {
    spec_hash(encode_utf8(s))
}

/// The hash of some bytes, such as the contents of a file: the lowercase hexadecimal
/// encoding of their SHA-256 digest, 64 digits long.
pub fn hash_bytes(data: &[u8]) -> (h: String)
    ensures
        h@ == spec_hash(data@),
        h@.len() == 64,
{
    let d = sha256_digest(data);
    assert(d@ =~= digest(data@));
    proof { lemma_hash_len(data@); }
    hex_encode(d.as_slice())
}

/// Things of which a cryptographic hash can be taken, such as strings and paths (which are
/// written as strings).
pub trait CryptoHash {
    /// The bytes that are hashed.
    spec fn hash_input(&self) -> Seq<u8>;

    /// The hash of the bytes, hex-encoded.
    fn crypto_hash(&self) -> (res: String)
        ensures
            res@ == spec_hash(self.hash_input()),
    ;
}

impl CryptoHash for str {
    open spec fn hash_input(&self) -> Seq<u8> {
        encode_utf8(self@)
    }

    fn crypto_hash(&self) -> (res: String) {
        let d = sha256_digest(self.as_bytes());
        assert(d@ =~= digest(self.hash_input()));
        hex_encode(d.as_slice())
    }
}

impl CryptoHash for String {
    open spec fn hash_input(&self) -> Seq<u8> {
        encode_utf8(self@)
    }

    fn crypto_hash(&self) -> (res: String) {
        let d = sha256_digest(self.as_str().as_bytes());
        assert(d@ =~= digest(self.hash_input()));
        hex_encode(d.as_slice())
    }
}

/// The combination of two hashes: the hash of the concatenation of their encodings.
pub open spec fn combine_hashes(hx: Seq<char>, hy: Seq<char>) -> Seq<char> {
    hash_str(hx + hy)
}

/// The combination of two strings.
pub open spec fn spec_combine(x: Seq<char>, y: Seq<char>) -> Seq<char> {
    combine_hashes(hash_str(x), hash_str(y))
}

/// Combines two things into a hash: the hash of the concatenation of their hashes.
pub fn combine<X: CryptoHash + ?Sized, Y: CryptoHash + ?Sized>(x: &X, y: &Y) -> (res: String)
    ensures
        res@ == combine_hashes(spec_hash(x.hash_input()), spec_hash(y.hash_input())),
{
    let mut both = x.crypto_hash();
    let hy = y.crypto_hash();
    both.append(hy.as_str());
    both.crypto_hash()
}

/// The initial cache key for a base image.
pub open spec fn spec_initial_key(image: Seq<char>) -> Seq<char> {
    "toast-"@ + hash_str(image)
}

/// Determines the initial cache key: `toast-` followed by the hash of the image name.
pub fn initial_key(image: &str) -> (res: String)
    ensures
        res@ == spec_initial_key(image@),
{
    proof { reveal_strlit("toast-"); }
    let mut res = String::from_str("toast-");
    res.append(image.crypto_hash().as_str());
    res
}

/// The hash of the variables `ks` of a task with their values in `env`, taken in order.
pub open spec fn env_hash(ks: Seq<Seq<char>>, env: Map<Seq<char>, String>) -> Seq<char>
    decreases ks.len(),
{
    if ks.len() == 0 {
        Seq::empty()
    } else {
        spec_combine(spec_combine(env_hash(ks.drop_last(), env), ks.last()), env[ks.last()]@)
    }
}

/// The cache key of a task, given the key of the task before it in the schedule.
pub open spec fn spec_key(
    previous_key: Seq<char>,
    task: Task,
    input_files_hash: Seq<char>,
    env: Map<Seq<char>, String>,
) -> Seq<char> {
    if task.environment@.dom().len() == 0 && task.input_paths.len() == 0 && task.command@.len() == 0 {
        previous_key
    } else {
        let k1 = spec_combine(previous_key, decimal(CACHE_VERSION as nat));
        let k2 = spec_combine(k1, env_hash(crate::toastfile::env_keys(task), env));
        let k3 = spec_combine(k2, input_files_hash);
        let k4 = spec_combine(k3, task.location@);
        let k5 = spec_combine(k4, task.user@);
        let k6 = spec_combine(k5, task.command@);
        "toast-"@ + k6
    }
}

/// Determines the cache key of a task from the cache key of the previous task in the
/// schedule (or the initial key, for the first task), the hash of the task's input files,
/// and the values of the task's variables. A task with no variables, no input paths, and
/// no command keeps the previous key.
pub fn key(previous_key: &str, task: &Task, input_files_hash: &str, environment: &StringMap<String>) -> (res: String)
    requires
        forall|k: Seq<char>| #[trigger] task.environment@.dom().contains(k) ==> environment@.dom().contains(k),
    ensures
        res@ == spec_key(previous_key@, *task, input_files_hash@, environment@),
{
    proof {
        use_type_invariant(&task.environment);
        task.environment.lemma_entries();
    }
    let mut cache_key = String::from_str(previous_key);
    if task.environment.is_empty() && task.input_paths.len() == 0 && task.command.unicode_len() == 0 {
        return cache_key;
    }
    let version = decimal_string(CACHE_VERSION);
    cache_key = combine(cache_key.as_str(), version.as_str());
    let env = &task.environment;
    let ghost ks = env.key_order();
    let mut environment_hash = String::new();
    let mut i: usize = 0;
    while i < env.len()
        invariant
            env.wf(),
            ks == env.key_order(),
            ks == crate::toastfile::env_keys(*task),
            env == &task.environment,
            forall|k: Seq<char>| #[trigger] task.environment@.dom().contains(k) ==> environment@.dom().contains(k),
            i <= ks.len(),
            environment_hash@ == env_hash(ks.subrange(0, i as int), environment@),
        decreases ks.len() - i,
    {
        proof { env.lemma_entries(); }
        let variable = env.key_at(i);
        assert(ks.to_set().contains(variable@));
        let value = match environment.get(variable.as_str()) {
            Some(v) => v,
            None => {
                assert(false);
                return cache_key;
            },
        };
        environment_hash = combine(environment_hash.as_str(), variable.as_str());
        environment_hash = combine(environment_hash.as_str(), value.as_str());
        assert(ks.subrange(0, i + 1).drop_last() =~= ks.subrange(0, i as int));
        i = i + 1;
    }
    assert(ks.subrange(0, ks.len() as int) =~= ks);
    cache_key = combine(cache_key.as_str(), environment_hash.as_str());
    cache_key = combine(cache_key.as_str(), input_files_hash);
    cache_key = combine(cache_key.as_str(), task.location.as_str());
    cache_key = combine(cache_key.as_str(), task.user.as_str());
    cache_key = combine(cache_key.as_str(), task.command.as_str());
    proof { reveal_strlit("toast-"); }
    let mut res = String::from_str("toast-");
    res.append(cache_key.as_str());
    res
}

/// SHA-256 gives `a` and `b` the same digest only if they are equal. No hash function is
/// injective, but the chance of two given inputs colliding is negligible.
pub open spec fn no_collision(a: Seq<u8>, b: Seq<u8>) -> bool {
    digest(a) == digest(b) ==> a == b
}

proof fn lemma_hex_len(b: Seq<u8>)
    ensures
        hex_lower(b).len() == 2 * b.len(),
    decreases b.len(),
{
    if b.len() > 0 {
        lemma_hex_len(b.drop_last());
    }
}

proof fn lemma_hex_injective(a: Seq<u8>, b: Seq<u8>)
    requires
        hex_lower(a) == hex_lower(b),
    ensures
        a == b,
    decreases a.len(),
{
    lemma_hex_len(a);
    lemma_hex_len(b);
    if a.len() > 0 {
        let ha = hex_lower(a);
        let n = ha.len();
        let x = a.last();
        let y = b.last();
        assert(ha[n - 2] == hex_digit(x / 16));
        assert(ha[n - 1] == hex_digit(x % 16));
        assert(hex_lower(b)[n - 2] == hex_digit(y / 16));
        assert(hex_lower(b)[n - 1] == hex_digit(y % 16));
        assert(x / 16 == y / 16);
        assert(x % 16 == y % 16);
        assert(x == y);
        lemma_hex_len(a.drop_last());
        lemma_hex_len(b.drop_last());
        assert(hex_lower(a.drop_last()) =~= ha.subrange(0, n - 2));
        assert(hex_lower(b.drop_last()) =~= hex_lower(b).subrange(0, n - 2));
        lemma_hex_injective(a.drop_last(), b.drop_last());
        assert(a =~= a.drop_last().push(x));
        assert(b =~= b.drop_last().push(y));
    } else {
        assert(a =~= b);
    }
}

/// A hash is 64 hexadecimal digits long.
pub proof fn lemma_hash_len(data: Seq<u8>)
    ensures
        spec_hash(data).len() == 64,
{
    lemma_hex_len(digest(data));
}

/// Hashes tell strings apart: unless SHA-256 maps the encodings of `x` and `y` to the
/// same digest, different strings have different hashes.
pub proof fn lemma_hash_injective(x: Seq<char>, y: Seq<char>)
    requires
        no_collision(encode_utf8(x), encode_utf8(y)),
    ensures
        hash_str(x) == hash_str(y) ==> x == y,
{
    if hash_str(x) == hash_str(y) {
        lemma_hex_injective(digest(encode_utf8(x)), digest(encode_utf8(y)));
        vstd::utf8::encode_utf8_decode_utf8(x);
        vstd::utf8::encode_utf8_decode_utf8(y);
    }
}

/// `combine` tells its inputs apart: unless SHA-256 maps two of the strings it hashes to
/// the same digest, different inputs give different results.
pub proof fn lemma_combine_injective(x1: Seq<char>, y1: Seq<char>, x2: Seq<char>, y2: Seq<char>)
    requires
        no_collision(encode_utf8(x1), encode_utf8(x2)),
        no_collision(encode_utf8(y1), encode_utf8(y2)),
        no_collision(encode_utf8(hash_str(x1) + hash_str(y1)), encode_utf8(hash_str(x2) + hash_str(y2))),
    ensures
        spec_combine(x1, y1) == spec_combine(x2, y2) ==> x1 == x2 && y1 == y2,
{
    if spec_combine(x1, y1) == spec_combine(x2, y2) {
        lemma_hash_injective(hash_str(x1) + hash_str(y1), hash_str(x2) + hash_str(y2));
        let a = hash_str(x1) + hash_str(y1);
        lemma_hash_len(encode_utf8(x1));
        lemma_hash_len(encode_utf8(x2));
        lemma_hash_len(encode_utf8(y1));
        lemma_hash_len(encode_utf8(y2));
        assert(hash_str(x1) =~= a.subrange(0, 64));
        assert(hash_str(x2) =~= a.subrange(0, 64));
        assert(hash_str(y1) =~= a.subrange(64, 128));
        assert(hash_str(y2) =~= a.subrange(64, 128));
        lemma_hash_injective(x1, x2);
        lemma_hash_injective(y1, y2);
    }
}

/// SHA-256 does not collide on any of the strings that combining `x1` with `y1` and `x2`
/// with `y2` hashes.
pub open spec fn combine_safe(x1: Seq<char>, y1: Seq<char>, x2: Seq<char>, y2: Seq<char>) -> bool {
    &&& no_collision(encode_utf8(x1), encode_utf8(x2))
    &&& no_collision(encode_utf8(y1), encode_utf8(y2))
    &&& no_collision(encode_utf8(hash_str(x1) + hash_str(y1)), encode_utf8(hash_str(x2) + hash_str(y2)))
}

/// SHA-256 does not collide on any of the strings that hashing the variables `ks1` with
/// their values in `e1` and `ks2` with theirs in `e2` combines, step by step.
pub open spec fn env_safe(ks1: Seq<Seq<char>>, e1: Map<Seq<char>, String>, ks2: Seq<Seq<char>>, e2: Map<Seq<char>, String>) -> bool
    decreases ks1.len(),
{
    if ks1.len() == 0 || ks2.len() == 0 {
        true
    } else {
        let p1 = env_hash(ks1.drop_last(), e1);
        let p2 = env_hash(ks2.drop_last(), e2);
        &&& combine_safe(spec_combine(p1, ks1.last()), e1[ks1.last()]@, spec_combine(p2, ks2.last()), e2[ks2.last()]@)
        &&& combine_safe(p1, ks1.last(), p2, ks2.last())
        &&& env_safe(ks1.drop_last(), e1, ks2.drop_last(), e2)
    }
}

/// The hash of a task's variables tells them apart: unless SHA-256 collides on what the two
/// hashes combine, the same hash comes only from the same variables, in the same order,
/// with the same values.
pub proof fn lemma_env_hash_injective(ks1: Seq<Seq<char>>, e1: Map<Seq<char>, String>, ks2: Seq<Seq<char>>, e2: Map<Seq<char>, String>)
    requires
        env_safe(ks1, e1, ks2, e2),
        env_hash(ks1, e1) == env_hash(ks2, e2),
    ensures
        ks1 == ks2,
        forall|i: int| 0 <= i < ks1.len() ==> #[trigger] e1[ks1[i]]@ == e2[ks2[i]]@,
    decreases ks1.len(),
{
    if ks1.len() == 0 && ks2.len() == 0 {
        assert(ks1 =~= ks2);
    } else if ks1.len() == 0 || ks2.len() == 0 {
        let k = if ks1.len() == 0 { ks2 } else { ks1 };
        let e = if ks1.len() == 0 { e2 } else { e1 };
        lemma_hash_len(encode_utf8(hash_str(spec_combine(env_hash(k.drop_last(), e), k.last())) + hash_str(e[k.last()]@)));
        assert(env_hash(k, e).len() == 64);
    } else {
        let p1 = env_hash(ks1.drop_last(), e1);
        let p2 = env_hash(ks2.drop_last(), e2);
        lemma_combine_injective(spec_combine(p1, ks1.last()), e1[ks1.last()]@, spec_combine(p2, ks2.last()), e2[ks2.last()]@);
        lemma_combine_injective(p1, ks1.last(), p2, ks2.last());
        lemma_env_hash_injective(ks1.drop_last(), e1, ks2.drop_last(), e2);
        assert(ks1 =~= ks1.drop_last().push(ks1.last()));
        assert(ks2 =~= ks2.drop_last().push(ks2.last()));
        assert forall|i: int| 0 <= i < ks1.len() implies #[trigger] e1[ks1[i]]@ == e2[ks2[i]]@ by {
            if i < ks1.len() - 1 {
                assert(ks1.drop_last()[i] == ks1[i]);
                assert(ks2.drop_last()[i] == ks2[i]);
                assert(e1[ks1.drop_last()[i]]@ == e2[ks2.drop_last()[i]]@);
            }
        }
    }
}

/// SHA-256 does not collide on any of the strings that computing the two cache keys hashes
/// at the top: at each step of the chain of combinations.
pub open spec fn key_safe(
    p1: Seq<char>, t1: Task, h1: Seq<char>, e1: Map<Seq<char>, String>,
    p2: Seq<char>, t2: Task, h2: Seq<char>, e2: Map<Seq<char>, String>,
) -> bool {
    let v = decimal(CACHE_VERSION as nat);
    let a1 = spec_combine(p1, v);
    let a2 = spec_combine(p2, v);
    let b1 = spec_combine(a1, env_hash(crate::toastfile::env_keys(t1), e1));
    let b2 = spec_combine(a2, env_hash(crate::toastfile::env_keys(t2), e2));
    let c1 = spec_combine(b1, h1);
    let c2 = spec_combine(b2, h2);
    let d1 = spec_combine(c1, t1.location@);
    let d2 = spec_combine(c2, t2.location@);
    let f1 = spec_combine(d1, t1.user@);
    let f2 = spec_combine(d2, t2.user@);
    &&& combine_safe(p1, v, p2, v)
    &&& combine_safe(a1, env_hash(crate::toastfile::env_keys(t1), e1), a2, env_hash(crate::toastfile::env_keys(t2), e2))
    &&& combine_safe(b1, h1, b2, h2)
    &&& combine_safe(c1, t1.location@, c2, t2.location@)
    &&& combine_safe(d1, t1.user@, d2, t2.user@)
    &&& combine_safe(f1, t1.command@, f2, t2.command@)
    &&& env_safe(crate::toastfile::env_keys(t1), e1, crate::toastfile::env_keys(t2), e2)
}

/// A task's cache key tells its inputs apart: unless SHA-256 collides on what the two keys
/// hash, two tasks that each have variables, input paths or a command get the same key only
/// if the previous keys, the variables (in name order) and their values, the hashes of the input files, the
/// locations, the users and the commands are all the same.
pub proof fn lemma_key_injective(
    p1: Seq<char>, t1: Task, h1: Seq<char>, e1: Map<Seq<char>, String>,
    p2: Seq<char>, t2: Task, h2: Seq<char>, e2: Map<Seq<char>, String>,
)
    requires
        !(t1.environment@.dom().len() == 0 && t1.input_paths.len() == 0 && t1.command@.len() == 0),
        !(t2.environment@.dom().len() == 0 && t2.input_paths.len() == 0 && t2.command@.len() == 0),
        key_safe(p1, t1, h1, e1, p2, t2, h2, e2),
        spec_key(p1, t1, h1, e1) == spec_key(p2, t2, h2, e2),
    ensures
        p1 == p2,
        env_hash(crate::toastfile::env_keys(t1), e1) == env_hash(crate::toastfile::env_keys(t2), e2),
        crate::toastfile::env_keys(t1) == crate::toastfile::env_keys(t2),
        forall|i: int| 0 <= i < crate::toastfile::env_keys(t1).len()
            ==> #[trigger] e1[crate::toastfile::env_keys(t1)[i]]@ == e2[crate::toastfile::env_keys(t2)[i]]@,
        h1 == h2,
        t1.location@ == t2.location@,
        t1.user@ == t2.user@,
        t1.command@ == t2.command@,
{
    let v = decimal(CACHE_VERSION as nat);
    let n1 = env_hash(crate::toastfile::env_keys(t1), e1);
    let n2 = env_hash(crate::toastfile::env_keys(t2), e2);
    let a1 = spec_combine(p1, v);
    let a2 = spec_combine(p2, v);
    let b1 = spec_combine(a1, n1);
    let b2 = spec_combine(a2, n2);
    let c1 = spec_combine(b1, h1);
    let c2 = spec_combine(b2, h2);
    let d1 = spec_combine(c1, t1.location@);
    let d2 = spec_combine(c2, t2.location@);
    let f1 = spec_combine(d1, t1.user@);
    let f2 = spec_combine(d2, t2.user@);
    let g1 = spec_combine(f1, t1.command@);
    let g2 = spec_combine(f2, t2.command@);
    reveal_strlit("toast-");
    assert(g1 =~= spec_key(p1, t1, h1, e1).skip(6));
    assert(g2 =~= spec_key(p2, t2, h2, e2).skip(6));
    lemma_combine_injective(f1, t1.command@, f2, t2.command@);
    lemma_combine_injective(d1, t1.user@, d2, t2.user@);
    lemma_combine_injective(c1, t1.location@, c2, t2.location@);
    lemma_combine_injective(b1, h1, b2, h2);
    lemma_combine_injective(a1, n1, a2, n2);
    lemma_combine_injective(p1, v, p2, v);
    let k1 = crate::toastfile::env_keys(t1);
    let k2 = crate::toastfile::env_keys(t2);
    lemma_env_hash_injective(k1, e1, k2, e2);
}

} // verus!

