# relayer

A relayer stands between the TPU and the validators it fronts: it takes transactions in over QUIC, drops those whose
signatures do not verify, and forwards the rest to the validators that are connected, each by the policy which that
validator pushed itself. A drop is a property of the recipient, never of the relayer: one validator's rules are not
applied to another validator's block.

The library under `src/` is verified with Verus. What is parsed, dropped, forwarded, counted, signed and injected, whom
the relayer answers and how, and what follows each event of the event loop and of the watch stream, is decided there.
`app/` holds the threads, sockets and requests around it, and the percentiles, which are asked for in floating point.

| module | what it is about |
|--------|------------------|
| `tpu` | the QUIC servers and whom they let in |
| `sigverify_stage` | marking packets whose signatures do not verify |
| `packet`, `tx_decode` | packets as they come in and go out, and the transactions in them |
| `pbp` | what a policy says of a transaction |
| `policy` | policies as they are pushed, stored and expire |
| `digest`, `policy_text`, `hex`, `order` | the digest by which two parties compare policies |
| `forward` | which packets each recipient gets |
| `delivery` | handing batches to the queues of the validators |
| `relayer` | connections, requests, and the steps of the event loop |
| `metrics`, `latency` | what is counted and reported |
| `control`, `sse` | the allowlist, and how it is kept in sync |
| `probe` | looking at a relayer from outside |
| `pubkey`, `text` | keys, and sets and maps of them; text |

Proof functions whose names begin with `law_` state what holds of the library as a whole. Functions marked
`#[verifier::external_body]`, and the `assume_specification` items, call other crates: their contracts are trusted, and
their comments say what they claim.
