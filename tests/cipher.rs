use vigenere_cipher::cipher::{decode, encode};
use vigenere_cipher::matrix::VigMatrixWrap;

#[test]
fn test_encode() {
    let vig_mat = VigMatrixWrap::new();
    let key = "°¡! RüST íS CóÓL ¡!°";
    let message = "Hello, World!";
    let encoded = encode(message, key, vig_mat).unwrap();
    assert_eq!(message, decode(&encoded, key, vig_mat).unwrap());

    let vig_mat = VigMatrixWrap::new();
    let key = "°¡! RüST íS CóÓL ¡!°";
    let message = "Martin K";
    let encoded = encode(message, key, vig_mat).unwrap();
    let decoded = decode(&encoded, key, vig_mat).unwrap();
    assert_eq!(message, decoded);

    let vig_mat = VigMatrixWrap::new();
    let key = "°¡! RüST íS CóÓL ¡!°";
    let message = "!!!!";
    let encoded = encode(message, key, vig_mat).unwrap();
    assert_eq!(message, decode(&encoded, key, vig_mat).unwrap());

    let vig_mat = VigMatrixWrap::new();
    let key = "°¡! RüST íS CóÓL ¡!°";
    let message = "WhatisApp+éars to   be the   problem here__°¿¿¿¿¿!!!!++++{{{{{{{}}}}}}}";
    let encoded = encode(message, key, vig_mat).unwrap();
    assert_eq!(message, decode(&encoded, key, vig_mat).unwrap());
}

#[test]
fn test_complex() {
    let vig_mat = VigMatrixWrap::new();
    let key = "°¡! RüST íS CóÓL ¡!°";
    let message = r##"´+++´[[[    {{{'''''""""()*&^   
            $2374954904890~~~11939455    
            7+a+e{eíóúúááÉú}"}}}]]]"##;
    let encoded = encode(message, key, vig_mat).unwrap();
    assert_eq!(message, decode(&encoded, key, vig_mat).unwrap());
}
