//! Keys and scalars of the curve secp256k1, by their encodings.
//!
//! A value of a type of this module is valid by the type's invariant. The group operations are
//! those of the `secp256k1` crate.

use vstd::prelude::*;
use crate::bytes;
use crate::bytes::{bytes_equal, precedes};

verus! {

/// The order of the curve's group, highest byte first.
pub const CURVE_ORDER: [u8; 32] = [
    0xff, 0xff, 0xff, 0xff, 0xff, 0xff, 0xff, 0xff, 0xff, 0xff, 0xff, 0xff, 0xff, 0xff, 0xff, 0xfe,
    0xba, 0xae, 0xdc, 0xe6, 0xaf, 0x48, 0xa0, 0x3b, 0xbf, 0xd2, 0x5e, 0x8c, 0xd0, 0x36, 0x41, 0x41,
];

/// The order of the curve's group.
pub open spec fn curve_order() -> nat {
    bytes::be_value(CURVE_ORDER@)
}

/// Whether a string of 33 bytes is the compressed encoding of a point, as
/// `secp256k1::PublicKey::from_slice` decides it.
pub uninterp spec fn valid_point(bytes: Seq<u8>) -> bool;

/// What `secp256k1::PublicKey::combine_keys` gives for points; `None` where it fails.
pub uninterp spec fn combined_points(points: Seq<Seq<u8>>) -> Option<Seq<u8>>;

/// The sum of points; `None` where there is no point to add, there are more than `i32::MAX`, or the
/// sum is the point at infinity.
pub open spec fn sum_points(points: Seq<Seq<u8>>) -> Option<Seq<u8>> {
    if points.len() == 0 {
        None
    } else {
        combined_points(points)
    }
}

/// The points have this sum in any order, as `combined_points` gives it.
pub open spec fn combined_in_any_order(points: Seq<Seq<u8>>, sum: Option<Seq<u8>>) -> bool {
    forall|other: Seq<Seq<u8>>|
        other.to_multiset() == points.to_multiset() ==> #[trigger] combined_points(other) == sum
}

/// The sum of points does not depend on their order.
pub open spec fn order_free(points: Seq<Seq<u8>>) -> bool {
    forall|other: Seq<Seq<u8>>| #[trigger]
        other.to_multiset() == points.to_multiset() ==> sum_points(other) == sum_points(points)
}

/// The multiple of a point by a scalar, as `secp256k1::PublicKey::mul_tweak` computes it.
pub uninterp spec fn point_times(point: Seq<u8>, scalar: Seq<u8>) -> Option<Seq<u8>>;

/// The sum of a point and the generator's multiple by a scalar, as
/// `secp256k1::PublicKey::add_exp_tweak` computes it.
pub uninterp spec fn point_plus_base(point: Seq<u8>, scalar: Seq<u8>) -> Option<Seq<u8>>;

/// The generator's multiple by a secret key, as `secp256k1::PublicKey::from_secret_key` computes
/// it.
pub uninterp spec fn public_point(secret: Seq<u8>) -> Seq<u8>;

/// The uncompressed encoding of a point, as `secp256k1::PublicKey::serialize_uncompressed` gives
/// it.
pub uninterp spec fn uncompressed_point(point: Seq<u8>) -> Seq<u8>;

/// The encodings of a sequence of public keys.
pub open spec fn encodings(keys: Seq<PublicKey>) -> Seq<Seq<u8>> {
    keys.map_values(|key: PublicKey| key@)
}

/// The 32 bytes of the x coordinate in a compressed encoding.
pub open spec fn x_coordinate(point: Seq<u8>) -> Seq<u8> {
    point.subrange(1, 33)
}

/// Calls `secp256k1::PublicKey::from_slice` on 33 bytes: the name `valid_point` says which of them
/// it accepts.
#[verifier::external_body]
fn parses_as_point(bytes: &[u8; 33]) -> (res: bool)
    ensures
        res == valid_point(bytes@),
{
    secp256k1::PublicKey::from_slice(bytes).is_ok()
}

/// Calls `secp256k1::XOnlyPublicKey::from_slice`, and lifts the result to the point with that x
/// coordinate and an even y coordinate: the encoding of that point is the byte 2 and then `x`, and
/// the call fails where that encodes no point.
#[verifier::external_body]
fn even_point(x: &[u8; 32]) -> (res: Option<PublicKey>)
    ensures
        match res {
            Some(key) => key@ == seq![2u8] + x@ && valid_point(key@),
            None => !valid_point(seq![2u8] + x@),
        },
{
    let x_only = secp256k1::XOnlyPublicKey::from_slice(x).ok()?;
    Some(PublicKey { bytes: x_only.public_key(secp256k1::Parity::Even).serialize() })
}

/// Calls `secp256k1::PublicKey::combine_keys`: the name `combined_points` says what the sum is. It
/// is a point where it exists, and there is none of no keys. The sum of one key is that key, and
/// the same points in another order have the same sum.
#[verifier::external_body]
fn combine(keys: &Vec<PublicKey>) -> (res: Option<PublicKey>)
    ensures
        match res {
            Some(key) => combined_points(encodings(keys@)) == Some(key@) && valid_point(key@)
                && combined_in_any_order(encodings(keys@), Some(key@)) && (keys@.len() == 1
                ==> key@ == keys@[0]@),
            None => combined_points(encodings(keys@)) is None && combined_in_any_order(
                encodings(keys@),
                None,
            ) && keys@.len() != 1,
        },
        keys@.len() == 0 ==> res is None,
{
    let points: Vec<secp256k1::PublicKey> = keys.iter().map(
        |key| secp256k1::PublicKey::from_slice(&key.bytes).expect("a point"),
    ).collect();
    let refs: Vec<&secp256k1::PublicKey> = points.iter().collect();
    let sum = secp256k1::PublicKey::combine_keys(&refs).ok()?;
    Some(PublicKey { bytes: sum.serialize() })
}

/// Calls `secp256k1::PublicKey::mul_tweak`: the name `point_times` says what the multiple is. It
/// is a point, and it exists unless the scalar is zero.
#[verifier::external_body]
fn multiply(key: &PublicKey, scalar: &Scalar) -> (res: Option<PublicKey>)
    ensures
        match res {
            Some(product) => point_times(key@, scalar@) == Some(product@) && valid_point(product@),
            None => point_times(key@, scalar@) is None,
        },
        res is None <==> bytes::be_value(scalar@) == 0,
{
    let secp = secp256k1::Secp256k1::verification_only();
    let factor = secp256k1::Scalar::from_be_bytes(scalar.bytes).expect("a scalar");
    let point = secp256k1::PublicKey::from_slice(&key.bytes).expect("a point");
    let product = point.mul_tweak(&secp, &factor).ok()?;
    Some(PublicKey { bytes: product.serialize() })
}

/// Calls `secp256k1::PublicKey::add_exp_tweak`: the name `point_plus_base` says what the sum is.
/// It is a point where it exists.
#[verifier::external_body]
fn add_base(key: &PublicKey, scalar: &Scalar) -> (res: Option<PublicKey>)
    ensures
        match res {
            Some(sum) => point_plus_base(key@, scalar@) == Some(sum@) && valid_point(sum@),
            None => point_plus_base(key@, scalar@) is None,
        },
{
    let secp = secp256k1::Secp256k1::verification_only();
    let tweak = secp256k1::Scalar::from_be_bytes(scalar.bytes).expect("a scalar");
    let point = secp256k1::PublicKey::from_slice(&key.bytes).expect("a point");
    let sum = point.add_exp_tweak(&secp, &tweak).ok()?;
    Some(PublicKey { bytes: sum.serialize() })
}

/// Calls `secp256k1::PublicKey::serialize_uncompressed`: the name `uncompressed_point` says what
/// the 65 bytes are.
#[verifier::external_body]
fn uncompressed(key: &PublicKey) -> (res: [u8; 65])
    ensures
        res@ == uncompressed_point(key@),
{
    secp256k1::PublicKey::from_slice(&key.bytes).expect("a point").serialize_uncompressed()
}

/// Calls `secp256k1::PublicKey::from_secret_key`: the name `public_point` says what the point is.
#[verifier::external_body]
fn generator_times(key: &SecretKey) -> (res: PublicKey)
    ensures
        res@ == public_point(key@),
        valid_point(res@),
{
    let secp = secp256k1::Secp256k1::signing_only();
    let secret = secp256k1::SecretKey::from_slice(&key.bytes).expect("a secret key");
    PublicKey { bytes: secp256k1::PublicKey::from_secret_key(&secp, &secret).serialize() }
}

/// Calls `secp256k1::SecretKey::add_tweak`: the sum modulo the curve order, and `None` where that
/// is zero.
#[verifier::external_body]
fn secret_plus(key: &SecretKey, tweak: &Scalar) -> (res: Option<SecretKey>)
    ensures
        match res {
            Some(sum) => bytes::be_value(sum@) == (bytes::be_value(key@) + bytes::be_value(
                tweak@,
            )) % curve_order()
                && 0 < bytes::be_value(sum@) < curve_order(),
            None => (bytes::be_value(key@) + bytes::be_value(tweak@)) % curve_order() == 0,
        },
{
    let scalar = secp256k1::Scalar::from_be_bytes(tweak.bytes).expect("a scalar");
    let secret = secp256k1::SecretKey::from_slice(&key.bytes).expect("a secret key");
    let sum = secret.add_tweak(&scalar).ok()?;
    Some(SecretKey { bytes: sum.secret_bytes() })
}

/// Calls `secp256k1::SecretKey::mul_tweak`: the product modulo the curve order, and `None` where
/// the scalar is zero.
#[verifier::external_body]
fn secret_times(key: &SecretKey, scalar: &Scalar) -> (res: Option<SecretKey>)
    ensures
        match res {
            Some(product) => bytes::be_value(product@) == (bytes::be_value(key@) * bytes::be_value(
                scalar@,
            ))
                % curve_order() && 0 < bytes::be_value(product@) < curve_order(),
            None => bytes::be_value(scalar@) == 0,
        },
        bytes::be_value(scalar@) == 0 ==> res is None,
{
    let factor = secp256k1::Scalar::from_be_bytes(scalar.bytes).expect("a scalar");
    let secret = secp256k1::SecretKey::from_slice(&key.bytes).expect("a secret key");
    let product = secret.mul_tweak(&factor).ok()?;
    Some(SecretKey { bytes: product.secret_bytes() })
}

/// Calls `secp256k1::SecretKey::negate`: the curve order less the key.
#[verifier::external_body]
fn secret_minus(key: &SecretKey) -> (res: SecretKey)
    ensures
        bytes::be_value(res@) == curve_order() - bytes::be_value(key@),
        0 < bytes::be_value(res@) < curve_order(),
{
    let secret = secp256k1::SecretKey::from_slice(&key.bytes).expect("a secret key");
    SecretKey { bytes: secret.negate().secret_bytes() }
}

/// A number below the curve order.
#[derive(Clone, Copy, Debug, PartialEq, Eq)]
pub struct Scalar {
    bytes: [u8; 32],
}

impl View for Scalar {
    type V = Seq<u8>;

    closed spec fn view(&self) -> Seq<u8> {
        self.bytes@
    }
}

impl Scalar {
    #[verifier::type_invariant]
    spec fn below_order(self) -> bool {
        bytes::be_value(self.bytes@) < curve_order()
    }

    /// Reads a scalar, highest byte first.
    pub fn from_be_bytes(bytes: [u8; 32]) -> (res: Option<Scalar>)
        ensures
            match res {
                Some(scalar) => bytes::be_value(bytes@) < curve_order() && scalar@ == bytes@,
                None => bytes::be_value(bytes@) >= curve_order(),
            },
    {
        proof {
            bytes::lemma_be_value_order(bytes@, CURVE_ORDER@);
        }
        let order = CURVE_ORDER;
        if precedes(&bytes, &order) {
            Some(Scalar { bytes })
        } else {
            None
        }
    }

    /// The bytes of the scalar, highest byte first.
    pub fn to_be_bytes(&self) -> (res: [u8; 32])
        ensures
            res@ == self@,
            bytes::be_value(res@) < curve_order(),
    {
        proof {
            use_type_invariant(self);
        }
        self.bytes
    }
}

/// A secret key: a number between zero and the curve order.
#[derive(Clone, Copy, Debug, PartialEq, Eq)]
pub struct SecretKey {
    bytes: [u8; 32],
}

impl View for SecretKey {
    type V = Seq<u8>;

    closed spec fn view(&self) -> Seq<u8> {
        self.bytes@
    }
}

/// The key whose point has an even y coordinate: the key itself, or its negative.
pub open spec fn even_key_value(key: Seq<u8>) -> nat {
    if public_point(key)[0] == 3 {
        (curve_order() - bytes::be_value(key)) as nat
    } else {
        bytes::be_value(key)
    }
}

impl SecretKey {
    #[verifier::type_invariant]
    spec fn in_range(self) -> bool {
        0 < bytes::be_value(self.bytes@) < curve_order()
    }

    /// Reads a secret key, highest byte first.
    pub fn from_bytes(bytes: [u8; 32]) -> (res: Option<SecretKey>)
        ensures
            match res {
                Some(key) => 0 < bytes::be_value(bytes@) < curve_order() && key@ == bytes@,
                None => bytes::be_value(bytes@) == 0 || bytes::be_value(bytes@) >= curve_order(),
            },
    {
        let zero = [0u8; 32];
        let order = CURVE_ORDER;
        proof {
            bytes::lemma_be_value_order(bytes@, CURVE_ORDER@);
            bytes::lemma_be_value_order(zero@, bytes@);
            lemma_zero_value(zero@);
        }
        if precedes(&zero, &bytes) && precedes(&bytes, &order) {
            Some(SecretKey { bytes })
        } else {
            None
        }
    }

    /// The bytes of the key, highest byte first.
    pub fn secret_bytes(&self) -> (res: [u8; 32])
        ensures
            res@ == self@,
            0 < bytes::be_value(res@) < curve_order(),
    {
        proof {
            use_type_invariant(self);
        }
        self.bytes
    }

    /// The key's number, as a scalar.
    pub fn to_scalar(&self) -> (res: Scalar)
        ensures
            res@ == self@,
    {
        proof {
            use_type_invariant(self);
        }
        Scalar { bytes: self.bytes }
    }

    /// The public key of this key.
    pub fn public_key(&self) -> (res: PublicKey)
        ensures
            res@ == public_point(self@),
    {
        generator_times(self)
    }

    /// Adds a tweak; `None` where the sum is a multiple of the curve order.
    pub fn add_tweak(&self, tweak: &Scalar) -> (res: Option<SecretKey>)
        ensures
            match res {
                Some(sum) => bytes::be_value(sum@) == (bytes::be_value(self@) + bytes::be_value(
                    tweak@,
                ))
                    % curve_order(),
                None => (bytes::be_value(self@) + bytes::be_value(tweak@)) % curve_order() == 0,
            },
            (bytes::be_value(self@) + bytes::be_value(tweak@)) % curve_order() == 0 ==> res is None,
    {
        secret_plus(self, tweak)
    }

    /// Multiplies by a scalar; `None` where the scalar is zero.
    pub fn mul_tweak(&self, scalar: &Scalar) -> (res: Option<SecretKey>)
        ensures
            match res {
                Some(product) => bytes::be_value(product@) == (bytes::be_value(self@)
                    * bytes::be_value(scalar@))
                    % curve_order(),
                None => bytes::be_value(scalar@) == 0,
            },
            bytes::be_value(scalar@) == 0 ==> res is None,
    {
        secret_times(self, scalar)
    }

    /// The key whose point has the same x coordinate and an even y coordinate.
    pub fn with_even_point(&self) -> (res: SecretKey)
        ensures
            bytes::be_value(res@) == even_key_value(self@),
    {
        let point = self.public_key();
        if point.is_odd() {
            secret_minus(self)
        } else {
            *self
        }
    }
}

/// A public key: a point of the curve, in its compressed encoding.
#[derive(Clone, Copy, Debug, PartialEq, Eq)]
pub struct PublicKey {
    bytes: [u8; 33],
}

impl View for PublicKey {
    type V = Seq<u8>;

    closed spec fn view(&self) -> Seq<u8> {
        self.bytes@
    }
}

impl PublicKey {
    #[verifier::type_invariant]
    spec fn on_curve(self) -> bool {
        valid_point(self.bytes@)
    }

    /// Reads a public key from its compressed encoding.
    pub fn from_bytes(bytes: [u8; 33]) -> (res: Option<PublicKey>)
        ensures
            match res {
                Some(key) => valid_point(bytes@) && key@ == bytes@,
                None => !valid_point(bytes@),
            },
    {
        if parses_as_point(&bytes) {
            Some(PublicKey { bytes })
        } else {
            None
        }
    }

    /// Reads a public key from its compressed encoding in a longer byte string.
    pub fn read_at(bytes: &[u8], start: usize) -> (res: Option<PublicKey>)
        requires
            start + 33 <= bytes@.len(),
        ensures
            match res {
                Some(key) => valid_point(key@) && key@ == bytes@.subrange(
                    start as int,
                    start + 33,
                ),
                None => !valid_point(bytes@.subrange(start as int, start + 33)),
            },
    {
        let len: usize = bytes.len();
        let mut encoding = [0u8; 33];
        let mut i: usize = 0;
        while i < 33
            invariant
                i <= 33,
                start + 33 <= len,
                len == bytes@.len(),
                forall|j: int| 0 <= j < i ==> encoding@[j] == bytes@[start + j],
            decreases 33 - i,
        {
            encoding[i] = bytes[start + i];
            i += 1;
        }
        assert(encoding@ =~= bytes@.subrange(start as int, start + 33));
        PublicKey::from_bytes(encoding)
    }

    /// The public key with this x coordinate and an even y coordinate.
    pub fn from_x_only(x: &[u8; 32]) -> (res: Option<PublicKey>)
        ensures
            match res {
                Some(key) => key@ == seq![2u8] + x@ && valid_point(key@),
                None => !valid_point(seq![2u8] + x@),
            },
    {
        even_point(x)
    }

    /// The compressed encoding.
    pub fn serialize(&self) -> (res: [u8; 33])
        ensures
            res@ == self@,
            valid_point(res@),
    {
        proof {
            use_type_invariant(self);
        }
        self.bytes
    }

    /// The uncompressed encoding.
    pub fn serialize_uncompressed(&self) -> (res: [u8; 65])
        ensures
            res@ == uncompressed_point(self@),
    {
        uncompressed(self)
    }

    /// Whether two keys are the same point.
    pub fn same(&self, other: &PublicKey) -> (res: bool)
        ensures
            res == (self@ == other@),
    {
        bytes_equal(&self.bytes, &other.bytes)
    }

    /// Whether the y coordinate is odd.
    pub fn is_odd(&self) -> (res: bool)
        ensures
            res == (self@[0] == 3),
    {
        self.bytes[0] == 3
    }

    /// The 32 bytes of the x coordinate.
    pub fn x_only(&self) -> (res: [u8; 32])
        ensures
            res@ == x_coordinate(self@),
    {
        let mut res = [0u8; 32];
        let mut i: usize = 0;
        while i < 32
            invariant
                i <= 32,
                forall|j: int| 0 <= j < i ==> res@[j] == self.bytes@[j + 1],
            decreases 32 - i,
        {
            res[i] = self.bytes[i + 1];
            i += 1;
        }
        assert(res@ =~= x_coordinate(self@));
        res
    }

    /// The sum of public keys; `None` where `sum_points` has none. It does not depend on the order
    /// of the keys, and one key is its own sum.
    pub fn combine_keys(keys: &Vec<PublicKey>) -> (res: Option<PublicKey>)
        ensures
            match res {
                Some(key) => sum_points(encodings(keys@)) == Some(key@),
                None => sum_points(encodings(keys@)) is None,
            },
            keys@.len() == 1 ==> (res matches Some(key) && key@ == keys@[0]@),
            order_free(encodings(keys@)),
    {
        let res = combine(keys);
        proof {
            let points = encodings(keys@);
            assert forall|other: Seq<Seq<u8>>| #[trigger]
                other.to_multiset() == points.to_multiset() implies sum_points(other)
                == sum_points(points) by {
                other.to_multiset_ensures();
                points.to_multiset_ensures();
                assert(combined_points(other) == combined_points(points));
            }
        }
        res
    }

    /// The multiple by a scalar; `None` where the scalar is zero.
    pub fn mul_tweak(&self, scalar: &Scalar) -> (res: Option<PublicKey>)
        ensures
            match res {
                Some(product) => point_times(self@, scalar@) == Some(product@),
                None => point_times(self@, scalar@) is None,
            },
            res is None <==> bytes::be_value(scalar@) == 0,
    {
        multiply(self, scalar)
    }

    /// The sum with the generator's multiple by a scalar; `None` where `point_plus_base` has none.
    pub fn add_exp_tweak(&self, scalar: &Scalar) -> (res: Option<PublicKey>)
        ensures
            match res {
                Some(sum) => point_plus_base(self@, scalar@) == Some(sum@),
                None => point_plus_base(self@, scalar@) is None,
            },
    {
        add_base(self, scalar)
    }
}

/// A secret key has 32 bytes, which its number determines.
pub proof fn lemma_secret_bytes(key: SecretKey)
    ensures
        key@ == bytes::be_bytes(bytes::be_value(key@), 32),
{
    bytes::lemma_be_round_trip(key@);
}

/// The public key with an encoding.
pub open spec fn key_of(encoding: Seq<u8>) -> PublicKey {
    choose|key: PublicKey| key@ == encoding
}

/// A public key is the one with its encoding.
pub proof fn lemma_key_of(key: PublicKey)
    ensures
        key_of(key@) == key,
{
    lemma_same_key(key_of(key@), key);
}

/// Public keys with the same encoding are the same.
pub proof fn lemma_same_key(key: PublicKey, other: PublicKey)
    requires
        key@ == other@,
    ensures
        key == other,
{
    assert(key.bytes =~= other.bytes);
}

/// An encoding has 33 bytes.
pub proof fn lemma_key_len(key: PublicKey)
    ensures
        key@.len() == 33,
{
}

proof fn lemma_zero_value(bytes: Seq<u8>)
    requires
        forall|i: int| 0 <= i < bytes.len() ==> bytes[i] == 0,
    ensures
        bytes::be_value(bytes) == 0,
    decreases bytes.len(),
{
    if bytes.len() > 0 {
        lemma_zero_value(bytes.drop_last());
    }
}

/// The order of the group of secp256k1.
pub proof fn law_curve_order()
    ensures
        CURVE_ORDER@ == seq![
            255u8, 255u8, 255u8, 255u8, 255u8, 255u8, 255u8, 255u8, 255u8, 255u8, 255u8, 255u8,
            255u8, 255u8, 255u8, 254u8, 186u8, 174u8, 220u8, 230u8, 175u8, 72u8, 160u8, 59u8,
            191u8, 210u8, 94u8, 140u8, 208u8, 54u8, 65u8, 65u8,
        ],
        curve_order() == bytes::be_value(CURVE_ORDER@),
{
    assert(CURVE_ORDER@ =~= seq![
        255u8, 255u8, 255u8, 255u8, 255u8, 255u8, 255u8, 255u8, 255u8, 255u8, 255u8, 255u8,
        255u8, 255u8, 255u8, 254u8, 186u8, 174u8, 220u8, 230u8, 175u8, 72u8, 160u8, 59u8,
        191u8, 210u8, 94u8, 140u8, 208u8, 54u8, 65u8, 65u8,
    ]);
}

/// Points have a sum where there are some and they can be combined, and it is what they are
/// combined to.
pub proof fn law_sum_points(points: Seq<Seq<u8>>)
    ensures
        points.len() == 0 ==> sum_points(points) is None,
        points.len() > 0 ==> sum_points(points) == combined_points(points),
{
}

/// The even one of a key and its negative is the key, where its point's encoding does not begin
/// with the byte 3, and the negative otherwise. A key and its negative add up to the curve order.
pub proof fn law_even_key(key: Seq<u8>)
    requires
        0 < bytes::be_value(key) < curve_order(),
    ensures
        public_point(key)[0] != 3 ==> even_key_value(key) == bytes::be_value(key),
        public_point(key)[0] == 3 ==> even_key_value(key) + bytes::be_value(key) == curve_order(),
        0 < even_key_value(key) < curve_order(),
{
}

/// The order of the group is not zero.
pub proof fn lemma_order()
    ensures
        curve_order() > 0,
{
    assert(CURVE_ORDER@.last() == 0x41);
}

/// The x coordinate of a point is what stands behind the first byte of its encoding.
pub proof fn law_x_coordinate(first: u8, x: Seq<u8>)
    requires
        x.len() == 32,
    ensures
        x_coordinate(seq![first] + x) == x,
{
    assert(x_coordinate(seq![first] + x) =~= x);
}

/// The encodings of public keys are as many, and stand in the order of the keys.
pub proof fn law_encodings(keys: Seq<PublicKey>, i: int)
    requires
        0 <= i < keys.len(),
    ensures
        encodings(keys).len() == keys.len(),
        encodings(keys)[i] == keys[i]@,
{
}

} // verus!
