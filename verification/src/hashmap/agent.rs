//! What an agent of the key-value table writes: a key picked at random from
//! the known keys, and a message of random lowercase letters.
use vstd::prelude::*;

verus! {

/// `rand::random::<u8>()`: a byte drawn from the thread's generator. Any value
/// may come; nothing is claimed of it.
#[verifier::external_body]
fn random_byte() -> (b: u8) {
    rand::random::<u8>()
}

/// The letter that a random byte picks: 'a' to 'z', never the separator ':'.
pub open spec fn letter_of(r: u8) -> u8 {
    (r % 26 + 97) as u8
}

/// The lowercase letter that a random byte picks.
pub fn letter(r: u8) -> (c: u8)
    ensures
        c == letter_of(r),
        97 <= c <= 122,
{
    r % 26 + 97
}

/// The message that a run of random bytes picks: one letter per byte.
pub fn message_of(randoms: &Vec<u8>) -> (msg: String)
    ensures
        msg@.len() == randoms@.len(),
        forall|i: int| 0 <= i < randoms@.len() ==> msg@[i] as u32 == letter_of(#[trigger] randoms@[i]) as u32,
{
    let mut msg = String::new();
    let mut i: usize = 0;
    while i < randoms.len()
        invariant
            i <= randoms@.len(),
            msg@.len() == i,
            forall|j: int| 0 <= j < i ==> msg@[j] as u32 == letter_of(#[trigger] randoms@[j]) as u32,
        decreases randoms@.len() - i,
    {
        let c = letter(randoms[i]);
        msg.append(letter_str(c));
        i = i + 1;
    }
    msg
}

/// The one-letter text of a lowercase letter.
fn letter_str(c: u8) -> (s: &'static str)
    requires
        97 <= c <= 122,
    ensures
        s@.len() == 1,
        s@[0] as u32 == c as u32,
{
    let letters = "abcdefghijklmnopqrstuvwxyz";
    proof {
        reveal_strlit("abcdefghijklmnopqrstuvwxyz");
    }
    let i = (c - 97) as usize;
    letters.substring_char(i, i + 1)
}

/// A message of `size` random lowercase letters.
pub fn get_rnd_msg(size: usize) -> (msg: String)
    ensures
        msg@.len() == size,
        forall|i: int| 0 <= i < size ==> 97 <= #[trigger] msg@[i] as u32 <= 122,
{
    let mut randoms: Vec<u8> = Vec::new();
    let mut i: usize = 0;
    while i < size
        invariant
            i <= size,
            randoms@.len() == i,
        decreases size - i,
    {
        randoms.push(random_byte());
        i = i + 1;
    }
    let msg = message_of(&randoms);
    assert forall|i: int| 0 <= i < size implies 97 <= #[trigger] msg@[i] as u32 <= 122 by {
        assert(msg@[i] as u32 == letter_of(randoms@[i]) as u32);
    }
    msg
}

/// The key that a random byte picks among `keys`: the byte modulo their
/// number taken as a byte.
pub fn pick_key(keys: &[&str], r: u8) -> (key: String)
    requires
        keys@.len() % 256 != 0,
    ensures
        key@ == keys@[(r as int) % (keys@.len() as int % 256)]@,
{
    let n = keys.len();
    let m = (n % 256) as u8;
    let x = r % m;
    String::from_str(keys[x as usize])
}

/// A key picked at random among `keys`.
pub fn get_random_key(keys: &[&str]) -> (key: String)
    requires
        keys@.len() % 256 != 0,
    ensures
        exists|i: int| 0 <= i < keys@.len() && key@ == #[trigger] keys@[i]@,
{
    let r = random_byte();
    let key = pick_key(keys, r);
    proof {
        let i = (r as int) % (keys@.len() as int % 256);
        assert(key@ == keys@[i]@);
    }
    key
}

} // verus!
