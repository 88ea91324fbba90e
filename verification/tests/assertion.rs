use aw_work_sync::google_sheets::{claims_json, jwt_claims, service_assertion, SigningError};
use jsonwebtoken::{decode, decode_header, Algorithm, DecodingKey, Validation};
use serde_json::Value;

/// An RSA key made up for these tests, and its modulus.
const KEY_PARTS: [&str; 27] = [
    "308204a40201000282010100bee1500ff7c77e7130447f4e2a29abca4f7f9126e16673c0916ca9ffa27589c006",
    "59019b611dbb3ddbc3905871b316fec21a34b8d5d174758501220997f35d4a7a7b92e671aafb68144dc08228ae",
    "665ed5c21181dd29ac26040600081127b4b68d6aefe10db87d1cc174f5d8b26e2ebb97befa4a7fd159aea678e0",
    "00836e8aa0e0f070b4a62234a398ad341f129f71128940460e2c796cf2ee4c64b77151189bb7bcd3aa7ee53706",
    "86f4a719713b1244785b9be1c29ed0efd3c134e256a6093b40e11005771061a63528528ea8f811a177ff51e24d",
    "acd3d06226e10413d704581d98fcb49fc7a701dc64372a237b532369c0600498fd0a73d9c354b62e570b8b0203",
    "0100010282010100bb15c70cff844e4fce4934a57df9bde0daae63ac41fbd2b409550202064f41a62e128adaaa",
    "0324046b237094df4bf2dbdb8f27e189e0734ec3ffea4690e1fcac05049d64b4402b8d456937a7db0ba4568b18",
    "5d64754a64ea15c373c07460006574923d6ecdade7228a1282ebd366def30ab62a475ea3e84c9fe99553ab7e6a",
    "ebb4652499deddaa22eea656ccc4ec6c76681b80e0f470d60a47497243c1dc7e28148bfb530f6aba5eff31860e",
    "cc524151a2e025afbe6beafae6d9ca857c5f3d0255f2636eebeeeec90ec390a1433e452ee664d5e1c8132653b1",
    "64f1956b0e375c925b526b6af6f1590c7b3b5054a142d74ba8cbd2e6f0c08fe0529338456ee09102818100f3ca",
    "0a8ce62d5947720c5436591d152ff57651938d19f3cedcfa38132b9ddae406ea9805ce1079bd8806927594162b",
    "67baa8d3d2a32fd2e4d0a189e868f5b9301c6e4070be22f5d4d4e695c9738e462b914a77df163482f495881119",
    "b653719f8d7fbcfb62a4394447fa1b85f85a7efb24833c0b340cf8d601663f92635b285d02818100c870d9d0fb",
    "3094191eee750a1572c32d1420c506d31cd3b389ac8ec629f1d40383c0f5ed1236394bfc9397295dbfedad834e",
    "02fcf0da6d0ab9d63e2b43b71d4142bc1f0d9a5a0fa28c8c60ffa2b21098584ee32715f0db86338dafd6ddb3e6",
    "15c25f09e4b8e88dffa69e69de77b0a006935e69b661582367b00988ac8bd9a50702818100a15e372594a6a7d5",
    "f6d3da5a2f1a650fddb677c0e7412a74df28713d9f3d59ca5e19a28f151b2aba1df3dbb620539c5f88da7f7b89",
    "b0fa33a3358a0760926606468b63f43ca6ff79e582cbdb10b638145693a84cee71cbcd01bd933425cf8e0242b3",
    "2ef06716b5215153682c817bc5598f8d9e8cfbe32a42dda244aa2d4205b102818002c6ed7da3bd4c8ffc89b93d",
    "6686ac85975dccdd0757c2e71de5322534b791046b72e4f55fe7386c0117da644c54386acb02edafab769b4426",
    "c6fd1d8456a9251a5398ea8b54ec1a886ff978113cfe55de0359ca54d77d73228bb7fff61a63f9b133b7e35f5c",
    "797b2d47cc97b478d1fec553ed8b05563f47547d0d53b6ac51490281805e900ad490bd21a7e8df194b9f682968",
    "1b9a3f12b1323309626767decb71f0527ddef7f05e0d38cd5ecfe132cab9faa909359243a3a88f9fa1531d6f27",
    "ce9fb487240c865685cd6bc6c0d7a12fe2f12bc31b00fd6e2851353a94730c91160f83f31b443f36c1f0218da2",
    "73bc2d1fbd0245b56fc6d19d10d144816f2e61fd5cc5",
];

const MODULUS_PARTS: [&str; 6] = [
    "bee1500ff7c77e7130447f4e2a29abca4f7f9126e16673c0916ca9ffa27589c00659019b611dbb3ddbc3905871",
    "b316fec21a34b8d5d174758501220997f35d4a7a7b92e671aafb68144dc08228ae665ed5c21181dd29ac260406",
    "00081127b4b68d6aefe10db87d1cc174f5d8b26e2ebb97befa4a7fd159aea678e000836e8aa0e0f070b4a62234",
    "a398ad341f129f71128940460e2c796cf2ee4c64b77151189bb7bcd3aa7ee5370686f4a719713b1244785b9be1",
    "c29ed0efd3c134e256a6093b40e11005771061a63528528ea8f811a177ff51e24dacd3d06226e10413d704581d",
    "98fcb49fc7a701dc64372a237b532369c0600498fd0a73d9c354b62e570b8b",
];

fn bytes(parts: &[&str]) -> Vec<u8> {
    let digits: Vec<u8> =
        parts.concat().chars().map(|c| c.to_digit(16).unwrap() as u8).collect();
    digits.chunks(2).map(|d| d[0] * 16 + d[1]).collect()
}

fn base64(bytes: &[u8], last: [char; 2], pad: bool) -> String {
    let mut alphabet: Vec<char> = ('A'..='Z').chain('a'..='z').chain('0'..='9').collect();
    alphabet.extend(last);
    let mut text = String::new();
    for chunk in bytes.chunks(3) {
        let mut group: u32 = 0;
        for i in 0..3 {
            group = group * 256 + *chunk.get(i).unwrap_or(&0) as u32;
        }
        for i in 0..4 {
            if i <= chunk.len() {
                text.push(alphabet[(group >> (18 - 6 * i)) as usize % 64]);
            } else if pad {
                text.push('=');
            }
        }
    }
    text
}

fn pem() -> String {
    let mut text = format!("-----BEGIN {}-----\n", "RSA PRIVATE KEY");
    for line in base64(&bytes(&KEY_PARTS), ['+', '/'], true).as_bytes().chunks(64) {
        text.push_str(std::str::from_utf8(line).unwrap());
        text.push('\n');
    }
    text + &format!("-----END {}-----\n", "RSA PRIVATE KEY")
}

#[test]
fn an_assertion_is_signed_and_says_the_claims() {
    let token = service_assertion(&pem(), "me@x", "https://t", 1000).unwrap();
    assert_eq!(decode_header(&token).unwrap().alg, Algorithm::RS256);
    let modulus = base64(&bytes(&MODULUS_PARTS), ['-', '_'], false);
    let key = DecodingKey::from_rsa_components(&modulus, "AQAB").unwrap();
    let mut validation = Validation::new(Algorithm::RS256);
    validation.validate_exp = false;
    validation.set_audience(&["https://t"]);
    let claims: Value = decode(&token, &key, &validation).unwrap().claims;
    assert_eq!(claims["iss"], "me@x");
    assert_eq!(claims["scope"], "https://www.googleapis.com/auth/spreadsheets");
    assert_eq!(claims["aud"], "https://t");
    assert_eq!(claims["iat"], 1000);
    assert_eq!(claims["exp"], 4600);
    assert_eq!(claims.as_object().unwrap().len(), 5);
    assert_eq!(service_assertion(&pem(), "me@x", "https://t", 1000), Ok(token));
}

#[test]
fn an_assertion_carries_the_claims_as_they_are_written() {
    let token = service_assertion(&pem(), "me@x", "https://t", 1000).unwrap();
    let text = "{\"iss\":\"me@x\",\"scope\":\"https://www.googleapis.com/auth/spreadsheets\",\"aud\":\"https://t\",\"iat\":1000,\"exp\":4600}";
    assert_eq!(claims_json(&jwt_claims("me@x", "https://t", 1000)), text);
    let payload = token.split('.').nth(1).unwrap();
    assert_eq!(payload, base64(text.as_bytes(), ['-', '_'], false));
}

#[test]
fn claims_are_escaped_as_json_asks() {
    for c in (0..=0x10FFFFu32).filter_map(char::from_u32) {
        let email = format!("a{c}b");
        let text = claims_json(&jwt_claims(&email, "t", -5));
        let written = serde_json::to_string(&email).unwrap();
        assert!(text.starts_with(&format!("{{\"iss\":{written},\"scope\":")));
    }
    assert!(claims_json(&jwt_claims("\"\u{1}\n", "t", -5)).starts_with("{\"iss\":\"\\\"\\u0001\\n\","));
    assert!(claims_json(&jwt_claims("e", "t", -5)).ends_with(",\"iat\":-5,\"exp\":3595}"));
    assert!(claims_json(&jwt_claims("e", "t", i64::MIN)).contains(":-9223372036854775808,"));
}

#[test]
fn what_is_no_key_signs_nothing() {
    let unreadable = Err(SigningError::UnreadableKey);
    assert_eq!(service_assertion("", "me@x", "https://t", 1000), unreadable);
    assert_eq!(service_assertion("no key", "me@x", "https://t", 1000), unreadable);
}

#[test]
fn a_key_that_is_read_may_not_sign() {
    let mut broken = bytes(&KEY_PARTS);
    let n = broken.len();
    for b in &mut broken[n - 120..] {
        *b ^= 0x5A;
    }
    let text = format!(
        "-----BEGIN {0}-----\n{1}\n-----END {0}-----\n",
        "RSA PRIVATE KEY",
        base64(&broken, ['+', '/'], true)
    );
    let unsigned = Err(SigningError::NotSigned);
    assert_eq!(service_assertion(&text, "me@x", "https://t", 1000), unsigned);
}
