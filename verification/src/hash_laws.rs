//! What the string hash promises: it is CityHash64. Known answers of the
//! published algorithm hold for an input of every length class, every input
//! of 17 to 32 bytes hashes as that branch written out in integer
//! arithmetic, and the dictionary hash ignores ASCII case.
use vstd::prelude::*;

use vstd::arithmetic::power2::{lemma2_to64, lemma2_to64_rest, pow2};

use crate::hash::{
    ascii_lower, bswap, fetch32, fetch64, rotr, spec_city_hash64, spec_city_round, spec_dictionary_hash,
    spec_hash_128_to_64, spec_hash_len_16_mul, spec_hash_len_17_32, spec_shift_mix, spec_weak_hash_at,
    spec_weak_hash_len_32, K1, K2,
};
use crate::le::le64;

verus! {

/// Known answers of CityHash64, one per length class of the input.
///
/// CityHash64 of the empty input is the constant `K2`.
pub proof fn law_city_hash_empty()
    ensures
        spec_city_hash64(Seq::<u8>::empty()) == 0x9ae16a3b2f90404fu64,
{
    let s = Seq::<u8>::empty();
    assert(s.len() == 0);
}

proof fn lemma_city_bits_1_to_3()
    by (bit_vector)
    ensures
        (0x62u64 << 8u64) == 0x6200u64,
        (0x63u64 << 2u64) == 0x18cu64,
        (0xfa13e8a23e469befu64 ^ 0xef63485095b19bc9u64) == 0x1570a0f2abf70026u64,
        spec_shift_mix(0x1570a0f2abf70026u64) == 0x1570a0f2abf72ac7u64,
{
}

/// CityHash64 of a 3-byte input (the 1 to 3 byte branch).
pub proof fn law_city_hash_1_to_3()
    ensures
        spec_city_hash64(seq![97u8, 98u8, 99u8]) == 0x24a5b3a074e7f369u64,
{
    let s = seq![97u8, 98u8, 99u8];
    assert(s.len() == 3);
    lemma_city_bits_1_to_3();
    assert((0x61u64).wrapping_add(0x6200u64) == 0x6261u64);
    assert((0x3u64).wrapping_add(0x18cu64) == 0x18fu64);
    assert((0x6261u64).wrapping_mul(0x9ae16a3b2f90404fu64) == 0xfa13e8a23e469befu64);
    assert((0x18fu64).wrapping_mul(0xc3a5c85c97cb3127u64) == 0xef63485095b19bc9u64);
    assert((0x1570a0f2abf72ac7u64).wrapping_mul(0x9ae16a3b2f90404fu64) == 0x24a5b3a074e7f369u64);
}

proof fn lemma_city_bits_4_to_7()
    by (bit_vector)
    ensures
        (0x64636261u64 << 3u64) == 0x3231b1308u64,
        (0x3231b130du64 ^ 0x65646362u64) == 0x3467f706fu64,
        (0x3745bfabfdd9d697u64 >> 47u64) == 0x6e8bu64,
        (0x3745bfabfdd9d697u64 ^ 0x6e8bu64) == 0x3745bfabfdd9b81cu64,
        (0x65646362u64 ^ 0x3745bfabfdd9b81cu64) == 0x3745bfab98bddb7eu64,
        (0x7f1d10f929c0ceceu64 >> 47u64) == 0xfe3au64,
        (0x7f1d10f929c0ceceu64 ^ 0xfe3au64) == 0x7f1d10f929c030f4u64,
{
}

/// CityHash64 of a 5-byte input (the 4 to 7 byte branch).
pub proof fn law_city_hash_4_to_7()
    ensures
        spec_city_hash64(seq![97u8, 98u8, 99u8, 100u8, 101u8]) == 0xc22f4663e54e04d4u64,
{
    let s = seq![97u8, 98u8, 99u8, 100u8, 101u8];
    assert(s.len() == 5);
    lemma_city_bits_4_to_7();
    assert((0x9ae16a3b2f90404fu64).wrapping_add(0xau64) == 0x9ae16a3b2f904059u64);
    assert(fetch32(s, 0) == 0x64636261u64);
    assert((0x5u64).wrapping_add(0x3231b1308u64) == 0x3231b130du64);
    assert(fetch32(s, 1) == 0x65646362u64);
    assert((0x3467f706fu64).wrapping_mul(0x9ae16a3b2f904059u64) == 0x3745bfabfdd9d697u64);
    assert((0x3745bfab98bddb7eu64).wrapping_mul(0x9ae16a3b2f904059u64) == 0x7f1d10f929c0ceceu64);
    assert((0x7f1d10f929c030f4u64).wrapping_mul(0x9ae16a3b2f904059u64) == 0xc22f4663e54e04d4u64);
    assert(spec_hash_len_16_mul(0x3231b130du64, 0x65646362u64, 0x9ae16a3b2f904059u64) == 0xc22f4663e54e04d4u64);
}

proof fn lemma_city_bits_8_to_16()
    by (bit_vector)
    ensures
        rotr(0x646e696b5f68746cu64, 37u64) == 0x5afb43a36323734bu64,
        rotr(0x355d69c94f89fbcu64, 25u64) == 0x7c4fde01aaeb4e4au64,
        (0x2a3c53cdba85a97fu64 ^ 0xa004fa1d1d685ca6u64) == 0x8a38a9d0a7edf5d9u64,
        (0x894179907f201601u64 >> 47u64) == 0x11282u64,
        (0x894179907f201601u64 ^ 0x11282u64) == 0x894179907f210483u64,
        (0xa004fa1d1d685ca6u64 ^ 0x894179907f210483u64) == 0x2945838d62495825u64,
        (0x2e4b08705ee672du64 >> 47u64) == 0x5c9u64,
        (0x2e4b08705ee672du64 ^ 0x5c9u64) == 0x2e4b08705ee62e4u64,
{
}

/// CityHash64 of a 13-byte input (the 8 to 16 byte branch).
pub proof fn law_city_hash_8_to_16()
    ensures
        spec_city_hash64(seq![109u8, 95u8, 104u8, 101u8, 97u8, 108u8, 116u8, 104u8, 95u8, 107u8, 105u8, 110u8, 100u8]) == 0x973f75a883bf8f84u64,
{
    let s = seq![109u8, 95u8, 104u8, 101u8, 97u8, 108u8, 116u8, 104u8, 95u8, 107u8, 105u8, 110u8, 100u8];
    assert(s.len() == 13);
    lemma_city_bits_8_to_16();
    assert((0x9ae16a3b2f90404fu64).wrapping_add(0x1au64) == 0x9ae16a3b2f904069u64);
    assert(fetch64(s, 0) == 0x68746c6165685f6du64);
    assert((0x68746c6165685f6du64).wrapping_add(0x9ae16a3b2f90404fu64) == 0x355d69c94f89fbcu64);
    assert(fetch64(s, 5) == 0x646e696b5f68746cu64);
    assert((0x5afb43a36323734bu64).wrapping_mul(0x9ae16a3b2f904069u64) == 0x26e67d31258d09c3u64);
    assert((0x26e67d31258d09c3u64).wrapping_add(0x355d69c94f89fbcu64) == 0x2a3c53cdba85a97fu64);
    assert((0x7c4fde01aaeb4e4au64).wrapping_add(0x646e696b5f68746cu64) == 0xe0be476d0a53c2b6u64);
    assert((0xe0be476d0a53c2b6u64).wrapping_mul(0x9ae16a3b2f904069u64) == 0xa004fa1d1d685ca6u64);
    assert((0x8a38a9d0a7edf5d9u64).wrapping_mul(0x9ae16a3b2f904069u64) == 0x894179907f201601u64);
    assert((0x2945838d62495825u64).wrapping_mul(0x9ae16a3b2f904069u64) == 0x2e4b08705ee672du64);
    assert((0x2e4b08705ee62e4u64).wrapping_mul(0x9ae16a3b2f904069u64) == 0x973f75a883bf8f84u64);
    assert(spec_hash_len_16_mul(0x2a3c53cdba85a97fu64, 0xa004fa1d1d685ca6u64, 0x9ae16a3b2f904069u64) == 0x973f75a883bf8f84u64);
}

proof fn lemma_city_bits_17_to_32()
    by (bit_vector)
    ensures
        rotr(0x7884ef6c85b47fd6u64, 43u64) == 0xed90b68ffacf109du64,
        rotr(0x26e8b42617d397f3u64, 30u64) == 0x5f4e5fcc9ba2d098u64,
        rotr(0xfc53c9a096f1adb0u64, 18u64) == 0x6b6c3f14f26825bcu64,
        (0x72c5950beaf0b576u64 ^ 0xa9678342288ed024u64) == 0xdba21649c27e6552u64,
        (0x3c44b6820e35991eu64 >> 47u64) == 0x7889u64,
        (0x3c44b6820e35991eu64 ^ 0x7889u64) == 0x3c44b6820e35e197u64,
        (0xa9678342288ed024u64 ^ 0x3c44b6820e35e197u64) == 0x952335c026bb31b3u64,
        (0x700bbfad9f20da35u64 >> 47u64) == 0xe017u64,
        (0x700bbfad9f20da35u64 ^ 0xe017u64) == 0x700bbfad9f203a22u64,
{
}

/// CityHash64 of a 20-byte key (the 17 to 32 byte branch).
pub proof fn law_city_hash_17_to_32()
    ensures
        spec_city_hash64(seq![119u8, 101u8, 97u8, 112u8, 111u8, 110u8, 95u8, 100u8, 97u8, 109u8, 97u8, 103u8, 101u8, 95u8, 114u8, 97u8, 100u8, 105u8, 117u8, 115u8]) == 0x47a3681ff7a385ceu64,
{
    let s = seq![119u8, 101u8, 97u8, 112u8, 111u8, 110u8, 95u8, 100u8, 97u8, 109u8, 97u8, 103u8, 101u8, 95u8, 114u8, 97u8, 100u8, 105u8, 117u8, 115u8];
    assert(s.len() == 20);
    lemma_city_bits_17_to_32();
    assert((0x9ae16a3b2f90404fu64).wrapping_add(0x28u64) == 0x9ae16a3b2f904077u64);
    assert(fetch64(s, 0) == 0x645f6e6f70616577u64);
    assert((0x645f6e6f70616577u64).wrapping_mul(0xb492b66fbe98f273u64) == 0x171290071e531275u64);
    assert(fetch64(s, 8) == 0x61725f6567616d61u64);
    assert(fetch64(s, 12) == 0x7375696461725f65u64);
    assert((0x7375696461725f65u64).wrapping_mul(0x9ae16a3b2f904077u64) == 0x26e8b42617d397f3u64);
    assert(fetch64(s, 4) == 0x67616d61645f6e6fu64);
    assert((0x67616d61645f6e6fu64).wrapping_mul(0x9ae16a3b2f90404fu64) == 0x25e67eaf547ed441u64);
    assert((0x171290071e531275u64).wrapping_add(0x61725f6567616d61u64) == 0x7884ef6c85b47fd6u64);
    assert((0xed90b68ffacf109du64).wrapping_add(0x5f4e5fcc9ba2d098u64) == 0x4cdf165c9671e135u64);
    assert((0x4cdf165c9671e135u64).wrapping_add(0x25e67eaf547ed441u64) == 0x72c5950beaf0b576u64);
    assert((0x61725f6567616d61u64).wrapping_add(0x9ae16a3b2f90404fu64) == 0xfc53c9a096f1adb0u64);
    assert((0x171290071e531275u64).wrapping_add(0x6b6c3f14f26825bcu64) == 0x827ecf1c10bb3831u64);
    assert((0x827ecf1c10bb3831u64).wrapping_add(0x26e8b42617d397f3u64) == 0xa9678342288ed024u64);
    assert((0xdba21649c27e6552u64).wrapping_mul(0x9ae16a3b2f904077u64) == 0x3c44b6820e35991eu64);
    assert((0x952335c026bb31b3u64).wrapping_mul(0x9ae16a3b2f904077u64) == 0x700bbfad9f20da35u64);
    assert((0x700bbfad9f203a22u64).wrapping_mul(0x9ae16a3b2f904077u64) == 0x47a3681ff7a385ceu64);
    assert(spec_hash_len_16_mul(0x72c5950beaf0b576u64, 0xa9678342288ed024u64, 0x9ae16a3b2f904077u64) == 0x47a3681ff7a385ceu64);
}

proof fn lemma_city_bits_33_to_64()
    by (bit_vector)
    ensures
        rotr(0x92a1c29d63cea957u64, 43u64) == 0x53ac79d52af25438u64,
        rotr(0xc8bbaea194877a6du64, 30u64) == 0x521de9b722eeba86u64,
        (0x92a1c29d63cea957u64 ^ 0xefe2d5c8bbaea194u64) == 0x7d431755d86008c3u64,
        bswap(0xcbf0a240e634385fu64) == 0x5f3834e640a2f0cbu64,
        rotr(0x56b688f9409ddbe0u64, 42u64) == 0x3e502776f815ada2u64,
        bswap(0x47fc17a1f31450c8u64) == 0xc85014f3a117fc47u64,
        bswap(0xa426c7d44d93b9e1u64) == 0xe1b9934dd4c726a4u64,
        spec_shift_mix(0xb6445a049172edc9u64) == 0xb6445a0491738141u64,
{
}

/// CityHash64 of a 43-byte input (the 33 to 64 byte branch).
#[verifier::spinoff_prover]
#[verifier::rlimit(100)]
pub proof fn law_city_hash_33_to_64()
    ensures
        spec_city_hash64(seq![5u8, 18u8, 31u8, 44u8, 57u8, 70u8, 83u8, 96u8, 109u8, 122u8, 135u8, 148u8, 161u8, 174u8, 187u8, 200u8, 213u8, 226u8, 239u8, 252u8, 9u8, 22u8, 35u8, 48u8, 61u8, 74u8, 87u8, 100u8, 113u8, 126u8, 139u8, 152u8, 165u8, 178u8, 191u8, 204u8, 217u8, 230u8, 243u8, 0u8, 13u8, 26u8, 39u8]) == 0xacb447a45e7e4683u64,
{
    let s = seq![5u8, 18u8, 31u8, 44u8, 57u8, 70u8, 83u8, 96u8, 109u8, 122u8, 135u8, 148u8, 161u8, 174u8, 187u8, 200u8, 213u8, 226u8, 239u8, 252u8, 9u8, 22u8, 35u8, 48u8, 61u8, 74u8, 87u8, 100u8, 113u8, 126u8, 139u8, 152u8, 165u8, 178u8, 191u8, 204u8, 217u8, 230u8, 243u8, 0u8, 13u8, 26u8, 39u8];
    assert(s.len() == 43);
    lemma_city_bits_33_to_64();
    assert((0x9ae16a3b2f90404fu64).wrapping_add(0x56u64) == 0x9ae16a3b2f9040a5u64);
    assert(fetch64(s, 0) == 0x605346392c1f1205u64);
    assert((0x605346392c1f1205u64).wrapping_mul(0x9ae16a3b2f90404fu64) == 0x6b87b59c6fe7cf8bu64);
    assert(fetch64(s, 8) == 0xc8bbaea194877a6du64);
    assert(fetch64(s, 19) == 0x574a3d30231609fcu64);
    assert(fetch64(s, 11) == 0xefe2d5c8bbaea194u64);
    assert(fetch64(s, 16) == 0x30231609fcefe2d5u64);
    assert((0x30231609fcefe2d5u64).wrapping_mul(0x9ae16a3b2f90404fu64) == 0xf9cf16fcb98c3fbbu64);
    assert(fetch64(s, 24) == 0x988b7e7164574a3du64);
    assert((0x988b7e7164574a3du64).wrapping_mul(0x9u64) == 0x5ce771fc87119c25u64);
    assert(fetch64(s, 35) == 0x271a0d00f3e6d9ccu64);
    assert(fetch64(s, 27) == 0xbfb2a5988b7e7164u64);
    assert((0xbfb2a5988b7e7164u64).wrapping_mul(0x9ae16a3b2f9040a5u64) == 0xb0f1162ea9181574u64);
    assert((0x6b87b59c6fe7cf8bu64).wrapping_add(0x271a0d00f3e6d9ccu64) == 0x92a1c29d63cea957u64);
    assert((0x521de9b722eeba86u64).wrapping_add(0x574a3d30231609fcu64) == 0xa96826e74604c482u64);
    assert((0xa96826e74604c482u64).wrapping_mul(0x9u64) == 0xf4a95e21762ae892u64);
    assert((0x53ac79d52af25438u64).wrapping_add(0xf4a95e21762ae892u64) == 0x4855d7f6a11d3ccau64);
    assert((0x6b87b59c6fe7cf8bu64).wrapping_add(0x271a0d00f3e6d9ccu64) == 0x92a1c29d63cea957u64);
    assert((0x7d431755d86008c3u64).wrapping_add(0x5ce771fc87119c25u64) == 0xda2a89525f71a4e8u64);
    assert((0xda2a89525f71a4e8u64).wrapping_add(0x1u64) == 0xda2a89525f71a4e9u64);
    assert((0x4855d7f6a11d3ccau64).wrapping_add(0xda2a89525f71a4e9u64) == 0x22806149008ee1b3u64);
    assert((0x22806149008ee1b3u64).wrapping_mul(0x9ae16a3b2f9040a5u64) == 0xcbf0a240e634385fu64);
    assert((0x5f3834e640a2f0cbu64).wrapping_add(0xb0f1162ea9181574u64) == 0x10294b14e9bb063fu64);
    assert((0xf9cf16fcb98c3fbbu64).wrapping_add(0x5ce771fc87119c25u64) == 0x56b688f9409ddbe0u64);
    assert((0x3e502776f815ada2u64).wrapping_add(0x574a3d30231609fcu64) == 0x959a64a71b2bb79eu64);
    assert((0xda2a89525f71a4e9u64).wrapping_add(0x10294b14e9bb063fu64) == 0xea53d467492cab28u64);
    assert((0xea53d467492cab28u64).wrapping_mul(0x9ae16a3b2f9040a5u64) == 0x47fc17a1f31450c8u64);
    assert((0xc85014f3a117fc47u64).wrapping_add(0x271a0d00f3e6d9ccu64) == 0xef6a21f494fed613u64);
    assert((0xef6a21f494fed613u64).wrapping_mul(0x9ae16a3b2f9040a5u64) == 0x48e5d4eaa574ba3fu64);
    assert((0xf9cf16fcb98c3fbbu64).wrapping_add(0x5ce771fc87119c25u64) == 0x56b688f9409ddbe0u64);
    assert((0x56b688f9409ddbe0u64).wrapping_add(0x574a3d30231609fcu64) == 0xae00c62963b3e5dcu64);
    assert((0x959a64a71b2bb79eu64).wrapping_add(0xae00c62963b3e5dcu64) == 0x439b2ad07edf9d7au64);
    assert((0x439b2ad07edf9d7au64).wrapping_mul(0x9ae16a3b2f9040a5u64) == 0x5b40f2e9a81effa2u64);
    assert((0x5b40f2e9a81effa2u64).wrapping_add(0x48e5d4eaa574ba3fu64) == 0xa426c7d44d93b9e1u64);
    assert((0xe1b9934dd4c726a4u64).wrapping_add(0xc8bbaea194877a6du64) == 0xaa7541ef694ea111u64);
    assert((0xae00c62963b3e5dcu64).wrapping_add(0xaa7541ef694ea111u64) == 0x58760818cd0286edu64);
    assert((0x58760818cd0286edu64).wrapping_mul(0x9ae16a3b2f9040a5u64) == 0x15706e0d2cac36c1u64);
    assert((0x15706e0d2cac36c1u64).wrapping_add(0xefe2d5c8bbaea194u64) == 0x55343d5e85ad855u64);
    assert((0x55343d5e85ad855u64).wrapping_add(0xb0f1162ea9181574u64) == 0xb6445a049172edc9u64);
    assert((0xb6445a0491738141u64).wrapping_mul(0x9ae16a3b2f9040a5u64) == 0x1719e2fd43528ee5u64);
    assert((0x1719e2fd43528ee5u64).wrapping_add(0x959a64a71b2bb79eu64) == 0xacb447a45e7e4683u64);
}

proof fn lemma_city_bits_long()
    by (bit_vector)
    ensures
        (0xa099928b847d76d3u64 ^ 0x48413a332c251e17u64) == 0xe8d8a8b8a85868c4u64,
        (0x8ab612f76d8d6c64u64 >> 47u64) == 0x1156cu64,
        (0x8ab612f76d8d6c64u64 ^ 0x1156cu64) == 0x8ab612f76d8c7908u64,
        (0x48413a332c251e17u64 ^ 0x8ab612f76d8c7908u64) == 0xc2f728c441a9671fu64,
        (0x394da5b9b963beb7u64 >> 47u64) == 0x729bu64,
        (0x394da5b9b963beb7u64 ^ 0x729bu64) == 0x394da5b9b963cc2cu64,
        rotr(0xc7d74f4373353016u64, 21u64) == 0xa980b63eba7a1b99u64,
        rotr(0x39240ef9e4cfbc09u64, 44u64) == 0xef9e4cfbc0939240u64,
        rotr(0x3ef9fb91bd74ab06u64, 21u64) == 0xa55831f7cfdc8debu64,
        rotr(0x763132c8f4abe23eu64, 44u64) == 0x2c8f4abe23e76313u64,
        ((99u64) & !63u64) == 64u64,
        rotr(0x1c4a12ce4619e79u64, 37u64) == 0x67230cf3c80e2509u64,
        rotr(0x36a06883a81ea415u64, 42u64) == 0x20ea07a9054da81au64,
        (0x55cf0169e8b5250bu64 ^ 0x7f5e02e057ed5ed6u64) == 0x2a910389bf587bddu64,
        rotr(0xedbf3fd133b3ead1u64, 33u64) == 0x99d9f568f6df9fe8u64,
        rotr(0x49d283f5d556cb44u64, 21u64) == 0xb65a224e941faeaau64,
        rotr(0x248bc91e9ccde8a5u64, 44u64) == 0x91e9ccde8a5248bcu64,
        rotr(0x1c0e11b59f422068u64, 21u64) == 0x110340e0708dacfau64,
        rotr(0x8196091a56c7eb5fu64, 44u64) == 0x91a56c7eb5f81960u64,
        (0x16197e65d879b50u64 ^ 0x3e4bb7c1f7617deau64) == 0x3f2a2027aae6e6bau64,
        (0x36a0bb6ee5f3544au64 >> 47u64) == 0x6d41u64,
        (0x36a0bb6ee5f3544au64 ^ 0x6d41u64) == 0x36a0bb6ee5f3390bu64,
        (0x3e4bb7c1f7617deau64 ^ 0x36a0bb6ee5f3390bu64) == 0x8eb0caf129244e1u64,
        (0xba822053f051cd49u64 >> 47u64) == 0x17504u64,
        (0xba822053f051cd49u64 ^ 0x17504u64) == 0xba822053f050b84du64,
        spec_shift_mix(0x9e7780ab7e9a479u64) == 0x9e7780ab7e9b7b7u64,
        (0x5bccc364e275235du64 ^ 0x537c01d2e4c3354bu64) == 0x8b0c2b606b61616u64,
        (0xb3bf46a1c960ed06u64 >> 47u64) == 0x1677eu64,
        (0xb3bf46a1c960ed06u64 ^ 0x1677eu64) == 0xb3bf46a1c9618a78u64,
        (0x537c01d2e4c3354bu64 ^ 0xb3bf46a1c9618a78u64) == 0xe0c347732da2bf33u64,
        (0xe40585f8f78462ebu64 >> 47u64) == 0x1c80bu64,
        (0xe40585f8f78462ebu64 ^ 0x1c80bu64) == 0xe40585f8f785aae0u64,
        (0x8f475097f50221a7u64 ^ 0x9964f14c733a9b18u64) == 0x1623a1db8638babfu64,
        (0x2025d57034e02b57u64 >> 47u64) == 0x404bu64,
        (0x2025d57034e02b57u64 ^ 0x404bu64) == 0x2025d57034e06b1cu64,
        (0x9964f14c733a9b18u64 ^ 0x2025d57034e06b1cu64) == 0xb941243c47daf004u64,
        (0x97f34fb321dd25a4u64 >> 47u64) == 0x12fe6u64,
        (0x97f34fb321dd25a4u64 ^ 0x12fe6u64) == 0x97f34fb321dc0a42u64,
{
}

/// CityHash64 of a 100-byte input (the long-input loop).
#[verifier::spinoff_prover]
#[verifier::rlimit(100)]
pub proof fn law_city_hash_long()
    ensures
        spec_city_hash64(seq![3u8, 10u8, 17u8, 24u8, 31u8, 38u8, 45u8, 52u8, 59u8, 66u8, 73u8, 80u8, 87u8, 94u8, 101u8, 108u8, 115u8, 122u8, 129u8, 136u8, 143u8, 150u8, 157u8, 164u8, 171u8, 178u8, 185u8, 192u8, 199u8, 206u8, 213u8, 220u8, 227u8, 234u8, 241u8, 248u8, 255u8, 6u8, 13u8, 20u8, 27u8, 34u8, 41u8, 48u8, 55u8, 62u8, 69u8, 76u8, 83u8, 90u8, 97u8, 104u8, 111u8, 118u8, 125u8, 132u8, 139u8, 146u8, 153u8, 160u8, 167u8, 174u8, 181u8, 188u8, 195u8, 202u8, 209u8, 216u8, 223u8, 230u8, 237u8, 244u8, 251u8, 2u8, 9u8, 16u8, 23u8, 30u8, 37u8, 44u8, 51u8, 58u8, 65u8, 72u8, 79u8, 86u8, 93u8, 100u8, 107u8, 114u8, 121u8, 128u8, 135u8, 142u8, 149u8, 156u8, 163u8, 170u8, 177u8, 184u8]) == 0x90d13909657dcf12u64,
{
    let s = seq![3u8, 10u8, 17u8, 24u8, 31u8, 38u8, 45u8, 52u8, 59u8, 66u8, 73u8, 80u8, 87u8, 94u8, 101u8, 108u8, 115u8, 122u8, 129u8, 136u8, 143u8, 150u8, 157u8, 164u8, 171u8, 178u8, 185u8, 192u8, 199u8, 206u8, 213u8, 220u8, 227u8, 234u8, 241u8, 248u8, 255u8, 6u8, 13u8, 20u8, 27u8, 34u8, 41u8, 48u8, 55u8, 62u8, 69u8, 76u8, 83u8, 90u8, 97u8, 104u8, 111u8, 118u8, 125u8, 132u8, 139u8, 146u8, 153u8, 160u8, 167u8, 174u8, 181u8, 188u8, 195u8, 202u8, 209u8, 216u8, 223u8, 230u8, 237u8, 244u8, 251u8, 2u8, 9u8, 16u8, 23u8, 30u8, 37u8, 44u8, 51u8, 58u8, 65u8, 72u8, 79u8, 86u8, 93u8, 100u8, 107u8, 114u8, 121u8, 128u8, 135u8, 142u8, 149u8, 156u8, 163u8, 170u8, 177u8, 184u8];
    assert(s.len() == 100);
    reveal(spec_city_round);
    lemma_city_bits_long();
    assert(fetch64(s, 60) == 0xd8d1cac3bcb5aea7u64);
    assert(fetch64(s, 84) == 0x8079726b645d564fu64);
    assert(fetch64(s, 44) == 0x68615a534c453e37u64);
    assert((0x8079726b645d564fu64).wrapping_add(0x68615a534c453e37u64) == 0xe8daccbeb0a29486u64);
    assert(fetch64(s, 52) == 0xa099928b847d766fu64);
    assert((0xa099928b847d766fu64).wrapping_add(0x64u64) == 0xa099928b847d76d3u64);
    assert(fetch64(s, 76) == 0x48413a332c251e17u64);
    assert((0xe8d8a8b8a85868c4u64).wrapping_mul(0x9ddfea08eb382d69u64) == 0x8ab612f76d8d6c64u64);
    assert((0xc2f728c441a9671fu64).wrapping_mul(0x9ddfea08eb382d69u64) == 0x394da5b9b963beb7u64);
    assert((0x394da5b9b963cc2cu64).wrapping_mul(0x9ddfea08eb382d69u64) == 0xbedc6264a2727a0cu64);
    assert(spec_hash_len_16_mul(0xa099928b847d76d3u64, 0x48413a332c251e17u64, 0x9ddfea08eb382d69u64) == 0xbedc6264a2727a0cu64);
    assert(spec_hash_128_to_64(0xa099928b847d76d3u64, 0x48413a332c251e17u64) == 0xbedc6264a2727a0cu64);
    assert(fetch64(s, 36) == 0x3029221b140d06ffu64);
    assert(fetch64(s, 44) == 0x68615a534c453e37u64);
    assert(fetch64(s, 52) == 0xa099928b847d766fu64);
    assert(fetch64(s, 60) == 0xd8d1cac3bcb5aea7u64);
    assert((0x64u64).wrapping_add(0x3029221b140d06ffu64) == 0x3029221b140d0763u64);
    assert((0xbedc6264a2727a0cu64).wrapping_add(0x3029221b140d0763u64) == 0xef05847fb67f816fu64);
    assert((0xef05847fb67f816fu64).wrapping_add(0xd8d1cac3bcb5aea7u64) == 0xc7d74f4373353016u64);
    assert((0x3029221b140d0763u64).wrapping_add(0x68615a534c453e37u64) == 0x988a7c6e6052459au64);
    assert((0x988a7c6e6052459au64).wrapping_add(0xa099928b847d766fu64) == 0x39240ef9e4cfbc09u64);
    assert((0xa980b63eba7a1b99u64).wrapping_add(0xef9e4cfbc0939240u64) == 0x991f033a7b0dadd9u64);
    assert((0x39240ef9e4cfbc09u64).wrapping_add(0xd8d1cac3bcb5aea7u64) == 0x11f5d9bda1856ab0u64);
    assert((0x991f033a7b0dadd9u64).wrapping_add(0x3029221b140d0763u64) == 0xc94825558f1ab53cu64);
    assert(spec_weak_hash_len_32(0x3029221b140d06ffu64, 0x68615a534c453e37u64, 0xa099928b847d766fu64, 0xd8d1cac3bcb5aea7u64, 0x64u64, 0xbedc6264a2727a0cu64) == (0x11f5d9bda1856ab0u64, 0xc94825558f1ab53cu64));
    assert(spec_weak_hash_at(s, 36, 0x64u64, 0xbedc6264a2727a0cu64) == (0x11f5d9bda1856ab0u64, 0xc94825558f1ab53cu64));
    assert((0xe8daccbeb0a29486u64).wrapping_add(0xb492b66fbe98f273u64) == 0x9d6d832e6f3b86f9u64);
    assert(fetch64(s, 68) == 0x100902fbf4ede6dfu64);
    assert(fetch64(s, 76) == 0x48413a332c251e17u64);
    assert(fetch64(s, 84) == 0x8079726b645d564fu64);
    assert(fetch64(s, 92) == 0xb8b1aaa39c958e87u64);
    assert((0x9d6d832e6f3b86f9u64).wrapping_add(0x100902fbf4ede6dfu64) == 0xad76862a64296dd8u64);
    assert((0xd8d1cac3bcb5aea7u64).wrapping_add(0xad76862a64296dd8u64) == 0x864850ee20df1c7fu64);
    assert((0x864850ee20df1c7fu64).wrapping_add(0xb8b1aaa39c958e87u64) == 0x3ef9fb91bd74ab06u64);
    assert((0xad76862a64296dd8u64).wrapping_add(0x48413a332c251e17u64) == 0xf5b7c05d904e8befu64);
    assert((0xf5b7c05d904e8befu64).wrapping_add(0x8079726b645d564fu64) == 0x763132c8f4abe23eu64);
    assert((0xa55831f7cfdc8debu64).wrapping_add(0x2c8f4abe23e76313u64) == 0xd1e77cb5f3c3f0feu64);
    assert((0x763132c8f4abe23eu64).wrapping_add(0xb8b1aaa39c958e87u64) == 0x2ee2dd6c914170c5u64);
    assert((0xd1e77cb5f3c3f0feu64).wrapping_add(0xad76862a64296dd8u64) == 0x7f5e02e057ed5ed6u64);
    assert(spec_weak_hash_len_32(0x100902fbf4ede6dfu64, 0x48413a332c251e17u64, 0x8079726b645d564fu64, 0xb8b1aaa39c958e87u64, 0x9d6d832e6f3b86f9u64, 0xd8d1cac3bcb5aea7u64) == (0x2ee2dd6c914170c5u64, 0x7f5e02e057ed5ed6u64));
    assert(spec_weak_hash_at(s, 68, 0x9d6d832e6f3b86f9u64, 0xd8d1cac3bcb5aea7u64) == (0x2ee2dd6c914170c5u64, 0x7f5e02e057ed5ed6u64));
    assert((0xd8d1cac3bcb5aea7u64).wrapping_mul(0xb492b66fbe98f273u64) == 0x6661763a29df5305u64);
    assert(fetch64(s, 0) == 0x342d261f18110a03u64);
    assert((0x6661763a29df5305u64).wrapping_add(0x342d261f18110a03u64) == 0x9a8e9c5941f05d08u64);
    assert((0x9a8e9c5941f05d08u64).wrapping_add(0xe8daccbeb0a29486u64) == 0x83696917f292f18eu64);
    assert((0x83696917f292f18eu64).wrapping_add(0x11f5d9bda1856ab0u64) == 0x955f42d594185c3eu64);
    assert(fetch64(s, 8) == 0x6c655e575049423bu64);
    assert((0x955f42d594185c3eu64).wrapping_add(0x6c655e575049423bu64) == 0x1c4a12ce4619e79u64);
    assert((0x67230cf3c80e2509u64).wrapping_mul(0xb492b66fbe98f273u64) == 0x55cf0169e8b5250bu64);
    assert((0xe8daccbeb0a29486u64).wrapping_add(0xc94825558f1ab53cu64) == 0xb222f2143fbd49c2u64);
    assert(fetch64(s, 48) == 0x847d766f68615a53u64);
    assert((0xb222f2143fbd49c2u64).wrapping_add(0x847d766f68615a53u64) == 0x36a06883a81ea415u64);
    assert((0x20ea07a9054da81au64).wrapping_mul(0xb492b66fbe98f273u64) == 0xabac6015e63b17aeu64);
    assert((0xabac6015e63b17aeu64).wrapping_add(0x11f5d9bda1856ab0u64) == 0xbda239d387c0825eu64);
    assert(fetch64(s, 40) == 0x4c453e373029221bu64);
    assert((0xbda239d387c0825eu64).wrapping_add(0x4c453e373029221bu64) == 0x9e7780ab7e9a479u64);
    assert((0xbedc6264a2727a0cu64).wrapping_add(0x2ee2dd6c914170c5u64) == 0xedbf3fd133b3ead1u64);
    assert((0x99d9f568f6df9fe8u64).wrapping_mul(0xb492b66fbe98f273u64) == 0x1d684a936d5e2538u64);
    assert((0xc94825558f1ab53cu64).wrapping_mul(0xb492b66fbe98f273u64) == 0xdf5bae18abf221f4u64);
    assert((0x2a910389bf587bddu64).wrapping_add(0x2ee2dd6c914170c5u64) == 0x5973e0f65099eca2u64);
    assert(fetch64(s, 0) == 0x342d261f18110a03u64);
    assert(fetch64(s, 8) == 0x6c655e575049423bu64);
    assert(fetch64(s, 16) == 0xa49d968f88817a73u64);
    assert(fetch64(s, 24) == 0xdcd5cec7c0b9b2abu64);
    assert((0xdf5bae18abf221f4u64).wrapping_add(0x342d261f18110a03u64) == 0x1388d437c4032bf7u64);
    assert((0x5973e0f65099eca2u64).wrapping_add(0x1388d437c4032bf7u64) == 0x6cfcb52e149d1899u64);
    assert((0x6cfcb52e149d1899u64).wrapping_add(0xdcd5cec7c0b9b2abu64) == 0x49d283f5d556cb44u64);
    assert((0x1388d437c4032bf7u64).wrapping_add(0x6c655e575049423bu64) == 0x7fee328f144c6e32u64);
    assert((0x7fee328f144c6e32u64).wrapping_add(0xa49d968f88817a73u64) == 0x248bc91e9ccde8a5u64);
    assert((0xb65a224e941faeaau64).wrapping_add(0x91e9ccde8a5248bcu64) == 0x4843ef2d1e71f766u64);
    assert((0x248bc91e9ccde8a5u64).wrapping_add(0xdcd5cec7c0b9b2abu64) == 0x16197e65d879b50u64);
    assert((0x4843ef2d1e71f766u64).wrapping_add(0x1388d437c4032bf7u64) == 0x5bccc364e275235du64);
    assert(spec_weak_hash_len_32(0x342d261f18110a03u64, 0x6c655e575049423bu64, 0xa49d968f88817a73u64, 0xdcd5cec7c0b9b2abu64, 0xdf5bae18abf221f4u64, 0x5973e0f65099eca2u64) == (0x16197e65d879b50u64, 0x5bccc364e275235du64));
    assert(spec_weak_hash_at(s, 0, 0xdf5bae18abf221f4u64, 0x5973e0f65099eca2u64) == (0x16197e65d879b50u64, 0x5bccc364e275235du64));
    assert((0x1d684a936d5e2538u64).wrapping_add(0x7f5e02e057ed5ed6u64) == 0x9cc64d73c54b840eu64);
    assert(fetch64(s, 16) == 0xa49d968f88817a73u64);
    assert((0x9e7780ab7e9a479u64).wrapping_add(0xa49d968f88817a73u64) == 0xae850e9a406b1eecu64);
    assert(fetch64(s, 32) == 0x140d06fff8f1eae3u64);
    assert(fetch64(s, 40) == 0x4c453e373029221bu64);
    assert(fetch64(s, 48) == 0x847d766f68615a53u64);
    assert(fetch64(s, 56) == 0xbcb5aea7a099928bu64);
    assert((0x9cc64d73c54b840eu64).wrapping_add(0x140d06fff8f1eae3u64) == 0xb0d35473be3d6ef1u64);
    assert((0xae850e9a406b1eecu64).wrapping_add(0xb0d35473be3d6ef1u64) == 0x5f58630dfea88dddu64);
    assert((0x5f58630dfea88dddu64).wrapping_add(0xbcb5aea7a099928bu64) == 0x1c0e11b59f422068u64);
    assert((0xb0d35473be3d6ef1u64).wrapping_add(0x4c453e373029221bu64) == 0xfd1892aaee66910cu64);
    assert((0xfd1892aaee66910cu64).wrapping_add(0x847d766f68615a53u64) == 0x8196091a56c7eb5fu64);
    assert((0x110340e0708dacfau64).wrapping_add(0x91a56c7eb5f81960u64) == 0xa2a8ad5f2685c65au64);
    assert((0x8196091a56c7eb5fu64).wrapping_add(0xbcb5aea7a099928bu64) == 0x3e4bb7c1f7617deau64);
    assert((0xa2a8ad5f2685c65au64).wrapping_add(0xb0d35473be3d6ef1u64) == 0x537c01d2e4c3354bu64);
    assert(spec_weak_hash_len_32(0x140d06fff8f1eae3u64, 0x4c453e373029221bu64, 0x847d766f68615a53u64, 0xbcb5aea7a099928bu64, 0x9cc64d73c54b840eu64, 0xae850e9a406b1eecu64) == (0x3e4bb7c1f7617deau64, 0x537c01d2e4c3354bu64));
    assert(spec_weak_hash_at(s, 32, 0x9cc64d73c54b840eu64, 0xae850e9a406b1eecu64) == (0x3e4bb7c1f7617deau64, 0x537c01d2e4c3354bu64));
    assert(spec_city_round(s, 0, (0x9a8e9c5941f05d08u64, 0xe8daccbeb0a29486u64, 0xbedc6264a2727a0cu64, (0x11f5d9bda1856ab0u64, 0xc94825558f1ab53cu64), (0x2ee2dd6c914170c5u64, 0x7f5e02e057ed5ed6u64))) == (0x1d684a936d5e2538u64, 0x9e7780ab7e9a479u64, 0x2a910389bf587bddu64, (0x16197e65d879b50u64, 0x5bccc364e275235du64), (0x3e4bb7c1f7617deau64, 0x537c01d2e4c3354bu64)));
    assert((0x3f2a2027aae6e6bau64).wrapping_mul(0x9ddfea08eb382d69u64) == 0x36a0bb6ee5f3544au64);
    assert((0x8eb0caf129244e1u64).wrapping_mul(0x9ddfea08eb382d69u64) == 0xba822053f051cd49u64);
    assert((0xba822053f050b84du64).wrapping_mul(0x9ddfea08eb382d69u64) == 0x8e13d2eac1592095u64);
    assert(spec_hash_len_16_mul(0x16197e65d879b50u64, 0x3e4bb7c1f7617deau64, 0x9ddfea08eb382d69u64) == 0x8e13d2eac1592095u64);
    assert(spec_hash_128_to_64(0x16197e65d879b50u64, 0x3e4bb7c1f7617deau64) == 0x8e13d2eac1592095u64);
    assert((0x9e7780ab7e9b7b7u64).wrapping_mul(0xb492b66fbe98f273u64) == 0xd6a27a2374508535u64);
    assert((0x8e13d2eac1592095u64).wrapping_add(0xd6a27a2374508535u64) == 0x64b64d0e35a9a5cau64);
    assert((0x64b64d0e35a9a5cau64).wrapping_add(0x2a910389bf587bddu64) == 0x8f475097f50221a7u64);
    assert((0x8b0c2b606b61616u64).wrapping_mul(0x9ddfea08eb382d69u64) == 0xb3bf46a1c960ed06u64);
    assert((0xe0c347732da2bf33u64).wrapping_mul(0x9ddfea08eb382d69u64) == 0xe40585f8f78462ebu64);
    assert((0xe40585f8f785aae0u64).wrapping_mul(0x9ddfea08eb382d69u64) == 0x7bfca6b905dc75e0u64);
    assert(spec_hash_len_16_mul(0x5bccc364e275235du64, 0x537c01d2e4c3354bu64, 0x9ddfea08eb382d69u64) == 0x7bfca6b905dc75e0u64);
    assert(spec_hash_128_to_64(0x5bccc364e275235du64, 0x537c01d2e4c3354bu64) == 0x7bfca6b905dc75e0u64);
    assert((0x7bfca6b905dc75e0u64).wrapping_add(0x1d684a936d5e2538u64) == 0x9964f14c733a9b18u64);
    assert((0x1623a1db8638babfu64).wrapping_mul(0x9ddfea08eb382d69u64) == 0x2025d57034e02b57u64);
    assert((0xb941243c47daf004u64).wrapping_mul(0x9ddfea08eb382d69u64) == 0x97f34fb321dd25a4u64);
    assert((0x97f34fb321dc0a42u64).wrapping_mul(0x9ddfea08eb382d69u64) == 0x90d13909657dcf12u64);
    assert(spec_hash_len_16_mul(0x8f475097f50221a7u64, 0x9964f14c733a9b18u64, 0x9ddfea08eb382d69u64) == 0x90d13909657dcf12u64);
    assert(spec_hash_128_to_64(0x8f475097f50221a7u64, 0x9964f14c733a9b18u64) == 0x90d13909657dcf12u64);
}

/// The dictionary hash ignores ASCII case: keys that agree once their
/// upper-case ASCII letters are lowered hash alike.
pub proof fn law_dictionary_hash_ignores_case(a: Seq<u8>, b: Seq<u8>)
    requires
        a.map_values(|c: u8| ascii_lower(c)) == b.map_values(|c: u8| ascii_lower(c)),
    ensures
        spec_dictionary_hash(a) == spec_dictionary_hash(b),
{
}

/// The dictionary hash of a mixed-case key is CityHash64 of the key in
/// lower case.
pub proof fn law_dictionary_hash_mixed_case()
    ensures
        spec_dictionary_hash(seq![87u8, 101u8, 97u8, 112u8, 111u8, 110u8, 95u8, 68u8, 97u8, 109u8, 97u8, 103u8, 101u8, 95u8, 82u8, 65u8, 68u8, 73u8, 85u8, 83u8]) == 0x47a3681ff7a385ceu64,
{
    let key = seq![87u8, 101u8, 97u8, 112u8, 111u8, 110u8, 95u8, 68u8, 97u8, 109u8, 97u8, 103u8, 101u8, 95u8, 82u8, 65u8, 68u8, 73u8, 85u8, 83u8];
    assert(key.map_values(|c: u8| ascii_lower(c)) =~= seq![119u8, 101u8, 97u8, 112u8, 111u8, 110u8, 95u8, 100u8, 97u8, 109u8, 97u8, 103u8, 101u8, 95u8, 114u8, 97u8, 100u8, 105u8, 117u8, 115u8]);
    law_city_hash_17_to_32();
}

/// `x` modulo 2^64.
pub open spec fn m64(x: int) -> int {
    x % 0x1_0000_0000_0000_0000
}

/// A 64-bit `x` rotated right by `k` bits, in integer arithmetic.
pub open spec fn rot(x: int, k: nat) -> int {
    x / (pow2(k) as int) + (x % (pow2(k) as int)) * (pow2((64 - k) as nat) as int)
}

/// The exclusive or of two 64-bit values.
pub open spec fn xor64(x: int, y: int) -> int {
    ((x as u64) ^ (y as u64)) as int
}

/// The final mix of two 64-bit values with multiplier `mul`.
pub open spec fn mix64(u: int, v: int, mul: int) -> int {
    let a0 = m64(xor64(u, v) * mul);
    let a = xor64(a0, a0 / (pow2(47) as int));
    let b = m64(xor64(v, a) * mul);
    m64(xor64(b, b / (pow2(47) as int)) * mul)
}

/// CityHash64 of an input of 17 to 32 bytes, written out in integer
/// arithmetic modulo 2^64 from its 64-bit words.
pub open spec fn city_17_to_32(s: Seq<u8>) -> int {
    let n = s.len() as int;
    let k1: int = 0xb492b66fbe98f273;
    let k2: int = 0x9ae16a3b2f90404f;
    let mul = m64(k2 + 2 * n);
    let a = m64(le64(s, 0) * k1);
    let b = le64(s, 8);
    let c = m64(le64(s, n - 8) * mul);
    let d = m64(le64(s, n - 16) * k2);
    mix64(m64(m64(rot(m64(a + b), 43) + rot(c, 30)) + d), m64(m64(a + rot(m64(b + k2), 18)) + c), mul)
}

proof fn lemma_le64_bound(s: Seq<u8>, o: int)
    requires
        0 <= o,
        o + 8 <= s.len(),
    ensures
        0 <= le64(s, o) < 0x1_0000_0000_0000_0000,
{
}

proof fn lemma_rotations(x: u64)
    by (bit_vector)
    ensures
        rotr(x, 43u64) == x / 0x800_0000_0000u64 + (x % 0x800_0000_0000u64) * 0x20_0000u64,
        rotr(x, 30u64) == x / 0x4000_0000u64 + (x % 0x4000_0000u64) * 0x4_0000_0000u64,
        rotr(x, 18u64) == x / 0x4_0000u64 + (x % 0x4_0000u64) * 0x4000_0000_0000u64,
        x >> 47u64 == x / 0x8000_0000_0000u64,
{
}

proof fn lemma_wrapping(x: u64, y: u64)
    ensures
        x.wrapping_mul(y) as int == m64(x * y),
        x.wrapping_add(y) as int == m64(x + y),
        (x ^ y) as int == xor64(x as int, y as int),
{
    assert(0 <= x * y) by (nonlinear_arith);
}

proof fn lemma_mix(u: u64, v: u64, mul: u64)
    ensures
        spec_hash_len_16_mul(u, v, mul) as int == mix64(u as int, v as int, mul as int),
{
    lemma2_to64();
    lemma2_to64_rest();
    let x0 = u ^ v;
    lemma_wrapping(u, v);
    let a0 = x0.wrapping_mul(mul);
    lemma_wrapping(x0, mul);
    lemma_rotations(a0);
    let a = a0 ^ (a0 >> 47u64);
    lemma_wrapping(a0, a0 >> 47u64);
    assert(pow2(47) as int == 0x8000_0000_0000);
    assert((a0 >> 47u64) == a0 / 0x8000_0000_0000u64);
    assert((a0 >> 47u64) as int == a0 as int / 0x8000_0000_0000);
    assert(a as int == xor64(a0 as int, (a0 >> 47u64) as int));
    assert(a as int == xor64(a0 as int, a0 as int / (pow2(47) as int)));
    let x1 = v ^ a;
    lemma_wrapping(v, a);
    let b = x1.wrapping_mul(mul);
    lemma_wrapping(x1, mul);
    lemma_rotations(b);
    let c = b ^ (b >> 47u64);
    lemma_wrapping(b, b >> 47u64);
    lemma_wrapping(c, mul);
    assert(spec_hash_len_16_mul(u, v, mul) == c.wrapping_mul(mul));
}

/// For every input of 17 to 32 bytes the hash is CityHash64 as written out
/// in `city_17_to_32`.
pub proof fn law_city_hash_17_to_32_all(s: Seq<u8>)
    requires
        17 <= s.len() <= 32,
    ensures
        spec_city_hash64(s) as int == city_17_to_32(s),
{
    lemma2_to64();
    lemma2_to64_rest();
    let n = s.len();
    lemma_le64_bound(s, 0);
    lemma_le64_bound(s, 8);
    lemma_le64_bound(s, n - 8);
    lemma_le64_bound(s, n - 16);
    let n2 = (2 * n) as u64;
    assert(n2 as int == 2 * n);
    let mul = K2.wrapping_add(n2);
    lemma_wrapping(K2, n2);
    let f0 = fetch64(s, 0);
    let b = fetch64(s, 8);
    let f1 = fetch64(s, n - 8);
    let f2 = fetch64(s, n - 16);
    assert(f0 as int == le64(s, 0) && b as int == le64(s, 8));
    assert(f1 as int == le64(s, n - 8) && f2 as int == le64(s, n - 16));
    let a = f0.wrapping_mul(K1);
    lemma_wrapping(f0, K1);
    let c = f1.wrapping_mul(mul);
    lemma_wrapping(f1, mul);
    let d = f2.wrapping_mul(K2);
    lemma_wrapping(f2, K2);
    let ab = a.wrapping_add(b);
    lemma_wrapping(a, b);
    lemma_rotations(ab);
    lemma_rotations(c);
    let bk = b.wrapping_add(K2);
    lemma_wrapping(b, K2);
    lemma_rotations(bk);
    let r1 = rotr(ab, 43);
    let r2 = rotr(c, 30);
    let r3 = rotr(bk, 18);
    assert(r1 as int == rot(ab as int, 43));
    assert(r2 as int == rot(c as int, 30));
    assert(r3 as int == rot(bk as int, 18));
    let u1 = r1.wrapping_add(r2);
    lemma_wrapping(r1, r2);
    let u = u1.wrapping_add(d);
    lemma_wrapping(u1, d);
    let v1 = a.wrapping_add(r3);
    lemma_wrapping(a, r3);
    let v = v1.wrapping_add(c);
    lemma_wrapping(v1, c);
    lemma_mix(u, v, mul);
    assert(spec_city_hash64(s) == spec_hash_len_17_32(s));
    assert(spec_hash_len_17_32(s) == spec_hash_len_16_mul(u, v, mul));
}

} // verus!
