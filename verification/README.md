# mineore

Mining ORE for a pool, with the logic verified by Verus.

`src/` is the library. It holds what a miner computes and decides: the search for the
best nonce, the packets and messages of the pool's protocol, what a worker and a
coordinator do about each event, the instructions that submit a solution, and the texts
that are printed. Every function states what it returns, and Verus proves it. What the
library has from other crates (drillx, bincode, bs58, colored, rand, the Solana and ORE
crates) stands behind small functions whose doc comments say what is taken on trust.

`app/` is the program around it: the command line, the network, threads and clocks.

To start mining:

```sh
mineore --address <YOUR_SOLANA_BASE58_ADDRESS> mine --pool <POOL_URL> --cores <NUMBER_OF_YOUR_CORES>
```

`tests/` runs the library on given values.

| module | what it is about |
|---|---|
| `search`, `drill` | the search on each core, and the best of all cores |
| `frame` | packets: the size of the header, the header, the payload |
| `pool` | a worker of the pool |
| `distributed`, `instruction` | a coordinator with workers of its own, and what it submits |
| `account`, `address`, `base58` | the accounts of the ORE program and their addresses |
| `amount`, `hexdump`, `text`, `utils` | texts |
| `miner` | what the command line speaks to |
