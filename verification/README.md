# json-signer

Signs and verifies JSON configuration files with Ed25519 (the default) or with
RSA-2048 / PKCS#1 v1.5 / SHA-256. The signature is part of the file, as its
`_signature` member. What is signed is the canonical form of RFC 8785, so white
space and the order of keys do not matter.

The library in `src/` is verified with Verus: its contracts say what each
function returns, and `laws.rs` what holds of signing and verifying as a whole.
`app/` is the command line program around it, which reads and writes the files.

| module | what it is for |
|--------|----------------|
| `json` | documents, and what the contracts take them to be |
| `outline` | the keys of a text as they are written, to find repeated ones |
| `layout` | what white space and the order of keys have no influence on |
| `document` | reading and writing the text of a document |
| `canonical` | what a signature covers, and its canonical bytes |
| `base64url` | the encoding of a signature |
| `crypto` | the two signature schemes |
| `keys` | key files, and signing and checking bytes |
| `signing` | signing and verifying documents |
| `files` | what is written to files, and in which steps |
| `laws` | what holds of all of this together |

## Use

```sh
json-signer generate-keys --private-key private.pem --public-key public.pem
json-signer sign config.json --private-key private.pem --key-id deploy-key-v1
json-signer verify config.json --public-key public.pem
```

`generate-keys` takes `--algorithm ed25519` or `--algorithm rsa2048` and never
overwrites a file. `sign` and `verify` tell the scheme from the key file.
`verify` exits with 0 on a valid signature and with 1 otherwise.

A text in which an object repeats a key is neither signed nor verified, and
neither is one with an integer outside the range that every JSON reader holds
exactly.

## What is taken on trust

The contracts of the functions marked `external_body` describe `serde_json`,
`json_canon`, `base64`, `pem`, `ed25519-dalek` and `rsa`. That no one without the
private key can make a signature that verifies is a matter of the two schemes and
is not stated.
